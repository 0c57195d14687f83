use vstd::prelude::*;
use vstd::string::StringSliceAdditionalSpecFns;
use crate::buffer::{Buffer, K_MAX_MSG, TAG_ARR, from_le32, read_le32};
use crate::reply::{Reply, encode, framed, out_nil, out_str, out_int, out_dbl, out_arr, out_err};
use crate::parse::{key_views, is_cmd, ascii_upper, parse_i64, parse_usize, parse_i64_spec, parse_usize_spec};
use crate::store::{GData, Entry, Value, VModel, Keys, Ttls, tick_rel, K_MAX_WORKS};
use crate::zset::ZSet;
use crate::avl::{Pair, sorted, pair_lt, lemma_sorted_unique};

verus! {

broadcast use vstd::seq_lib::group_seq_properties;

pub const MSG_WRONGTYPE: &'static str = "WRONGTYPE Operation against a key holding the wrong kind of value";
pub const MSG_TOO_LARGE: &'static str = "value too large";
pub const MSG_UNKNOWN: &'static str = "Unknown command";
pub const MSG_EXPECT_INT: &'static str = "Expected int64";
pub const MSG_OOM: &'static str = "out of memory";
pub const MSG_GET_ARITY: &'static str = "GET requires a key";
pub const MSG_SET_ARITY: &'static str = "SET requires key and value";
pub const MSG_DEL_ARITY: &'static str = "DEL requires at least one key";
pub const MSG_ZADD_ARITY: &'static str = "ZADD requires: key score member [score member ...]";
pub const MSG_ZADD_SCORE: &'static str = "Invalid score: ";
pub const MSG_ZREM_ARITY: &'static str = "ZREM requires: key member [member ...]";
pub const MSG_ZQUERY_ARITY: &'static str = "ZQUERY requires: key score name offset limit";
pub const MSG_BAD_SCORE: &'static str = "Invalid score";
pub const MSG_BAD_OFFSET: &'static str = "Invalid offset";
pub const MSG_BAD_LIMIT: &'static str = "Invalid limit";
pub const MSG_EXPIRE_ARITY: &'static str = "EXPIRE requires key and seconds";
pub const MSG_TTL_ARITY: &'static str = "TTL requires a key";
pub const MSG_PERSIST_ARITY: &'static str = "PERSIST requires a key";

/// Most score-member pairs that one `ZQUERY` reply lists; more could not
/// fit in a frame.
pub const K_MAX_QUERY_PAIRS: usize = 4096;

/// The IEEE-754 bits of the double whose order key is `k`. Order keys map
/// the doubles other than NaN, with both zeros as one, onto `u64` in
/// order: a non-negative double sets the top bit, a negative one is
/// complemented.
pub open spec fn score_bits(k: u64) -> u64 {
    if k >= 0x8000_0000_0000_0000 {
        (k - 0x8000_0000_0000_0000) as u64
    } else {
        (0xffff_ffff_ffff_ffff - k) as u64
    }
}

pub fn score_bits_of(k: u64) -> (r: u64)
    ensures
        r == score_bits(k),
{
    if k >= 0x8000_0000_0000_0000 {
        k - 0x8000_0000_0000_0000
    } else {
        0xffff_ffff_ffff_ffff - k
    }
}

/// Whether IEEE-754 bits `b` are a NaN.
pub open spec fn is_nan_bits(b: u64) -> bool {
    b & 0x7ff0_0000_0000_0000 == 0x7ff0_0000_0000_0000 && b & 0x000f_ffff_ffff_ffff != 0
}

/// The order key of the double with bits `b` (see `score_bits`); -0.0 has
/// the key of +0.0.
pub open spec fn key_of_bits(b: u64) -> u64 {
    let b = if b == 0x8000_0000_0000_0000 { 0u64 } else { b };
    if b >= 0x8000_0000_0000_0000 {
        (0xffff_ffff_ffff_ffff - b) as u64
    } else {
        (b + 0x8000_0000_0000_0000) as u64
    }
}

/// The order key of a score given as the bits of a double; none for NaN,
/// which no sorted set accepts.
pub fn score_key_of_bits(bits: u64) -> (r: Option<u64>)
    ensures
        r == if is_nan_bits(bits) { None } else { Some(key_of_bits(bits)) },
        r.is_some() && bits != 0x8000_0000_0000_0000 ==> score_bits(r.unwrap()) == bits,
{
    if bits & 0x7ff0_0000_0000_0000 == 0x7ff0_0000_0000_0000 && bits & 0x000f_ffff_ffff_ffff != 0 {
        return None;
    }
    let b = if bits == 0x8000_0000_0000_0000 { 0 } else { bits };
    if b >= 0x8000_0000_0000_0000 {
        Some(0xffff_ffff_ffff_ffff - b)
    } else {
        Some(b + 0x8000_0000_0000_0000)
    }
}

pub open spec fn err(m: &'static str) -> Reply {
    Reply::Error(m.spec_bytes())
}

/// The reply to `GET`.
pub open spec fn get_reply(db: Keys, c: Seq<Seq<u8>>) -> Reply {
    if c.len() < 2 {
        err(MSG_GET_ARITY)
    } else if !db.contains_key(c[1]) {
        Reply::Nil
    } else {
        match db[c[1]] {
            VModel::Str(v) => if v.len() > K_MAX_MSG {
                err(MSG_TOO_LARGE)
            } else {
                Reply::Str(v)
            },
            VModel::ZSet(_) => err(MSG_WRONGTYPE),
            VModel::Init => Reply::Nil,
        }
    }
}

/// `SET`: the key holds the string and no deadline.
pub open spec fn set_step(db: Keys, ttl: Ttls, c: Seq<Seq<u8>>) -> (Keys, Ttls, Reply) {
    if c.len() < 3 {
        (db, ttl, err(MSG_SET_ARITY))
    } else if !db.contains_key(c[1]) && db.dom().len() + 9 >= usize::MAX {
        (db, ttl, err(MSG_OOM))
    } else {
        (db.insert(c[1], VModel::Str(c[2])), ttl.remove(c[1]), Reply::Nil)
    }
}

/// Deleting the keys `ks` in turn: the state after, and how many were
/// present when their turn came.
pub open spec fn del_fold(db: Keys, ttl: Ttls, ks: Seq<Seq<u8>>) -> (Keys, Ttls, nat)
    decreases ks.len(),
{
    if ks.len() == 0 {
        (db, ttl, 0)
    } else {
        let (d, t, n) = del_fold(db, ttl, ks.drop_last());
        let k = ks.last();
        if d.contains_key(k) {
            (d.remove(k), t.remove(k), n + 1)
        } else {
            (d, t, n)
        }
    }
}

/// `DEL`.
pub open spec fn del_step(db: Keys, ttl: Ttls, c: Seq<Seq<u8>>) -> (Keys, Ttls, Reply) {
    if c.len() < 2 {
        (db, ttl, err(MSG_DEL_ARITY))
    } else {
        let (d, t, n) = del_fold(db, ttl, c.subrange(1, c.len() as int));
        (d, t, Reply::Int(n as i64))
    }
}

/// `items` lists each key of `db` once, each as an encoded string.
pub open spec fn keys_listing(db: Keys, ks: Seq<Seq<u8>>) -> bool {
    &&& ks.no_duplicates()
    &&& forall|x: Seq<u8>| ks.contains(x) <==> db.contains_key(x)
}

pub open spec fn str_items(ks: Seq<Seq<u8>>) -> Seq<Seq<u8>> {
    ks.map_values(|k: Seq<u8>| encode(Reply::Str(k)))
}

pub fn do_get(g: &GData, cmd: &Vec<Vec<u8>>, out: &mut Buffer)
    requires
        g.wf(),
        old(out).wf(),
    ensures
        final(out).wf(),
        final(out)@ == old(out)@ + encode(get_reply(g.keys(), key_views(cmd@))),
{
    if cmd.len() < 2 {
        out_err(out, MSG_GET_ARITY);
        return;
    }
    let key = cmd[1].as_slice();
    match g.db.lookup(key) {
        None => {
            out_nil(out);
        },
        Some(entry) => {
            match &entry.value {
                Value::Str(v) => {
                    if v.len() > K_MAX_MSG {
                        out_err(out, MSG_TOO_LARGE);
                    } else {
                        out_str(out, v.as_slice());
                    }
                },
                Value::ZSet(_) => {
                    out_err(out, MSG_WRONGTYPE);
                },
                Value::Init => {
                    out_nil(out);
                },
            }
        },
    }
}

pub fn do_set(g: &mut GData, cmd: &Vec<Vec<u8>>, out: &mut Buffer)
    requires
        old(g).wf(),
        old(out).wf(),
    ensures
        final(g).wf(),
        final(out).wf(),
        ({
            let (d, t, r) = set_step(old(g).keys(), old(g).ttls(), key_views(cmd@));
            &&& final(g).keys() == d
            &&& final(g).ttls() == t
            &&& final(out)@ == old(out)@ + encode(r)
        }),
{
    if cmd.len() < 3 {
        out_err(out, MSG_SET_ARITY);
        return;
    }
    let key = cmd[1].as_slice();
    proof {
        g.db.lemma_union();
        assert(g.keys().dom() =~= g.db@.dom());
    }
    if g.db.size() + 9 >= usize::MAX && g.db.lookup(key).is_none() {
        out_err(out, MSG_OOM);
        return;
    }
    let _ = g.entry_del(key);
    let k = vstd::slice::slice_to_vec(key);
    let v = vstd::slice::slice_to_vec(cmd[2].as_slice());
    proof {
        g.db.lemma_union();
    }
    let ghost g1 = *g;
    let e = Entry::new_string(v);
    proof {
        g.lemma_keys();
        old(g).lemma_keys();
    }
    assert(!g1.db@.contains_key(key@));
    g.db.insert(k, e);
    proof {
        g.db.lemma_union();
        assert(g.db@.dom() =~= g1.db@.dom().insert(key@));
        if old(g).db@.contains_key(key@) {
            assert(g1.db@.dom() =~= old(g).db@.dom().remove(key@));
        } else {
            assert(g1.db@.dom() =~= old(g).db@.dom());
        }
        g1.lemma_keys();
        g.lemma_keys();
        assert(g1.keys() == old(g).keys().remove(key@));
        assert(e.value.model() == VModel::Str(cmd@[2]@));
        assert forall|x: Seq<u8>| #[trigger] g.keys().contains_key(x) implies g.keys()[x] == old(g).keys().insert(key@, VModel::Str(cmd@[2]@))[x] by {
            if x != key@ {
                assert(g1.db@.contains_key(x));
                assert(g.db@[x] == g1.db@[x]);
                assert(g1.keys()[x] == g1.db@[x].value.model());
            } else {
                assert(g.db@[x] == e);
            }
        }
        assert(g.keys() =~= old(g).keys().insert(key@, VModel::Str(cmd@[2]@)));
        assert forall|x: Seq<u8>| #[trigger] g.db@.contains_key(x) implies g.db@[x].value.wf() by {
            if x != key@ {
                assert(g1.db@.contains_key(x));
            }
        }
        assert(g.heap@.dom().subset_of(g.db@.dom()));
    }
    out_nil(out);
}

pub fn do_del(g: &mut GData, cmd: &Vec<Vec<u8>>, out: &mut Buffer)
    requires
        old(g).wf(),
        old(out).wf(),
    ensures
        final(g).wf(),
        final(out).wf(),
        ({
            let (d, t, r) = del_step(old(g).keys(), old(g).ttls(), key_views(cmd@));
            &&& final(g).keys() == d
            &&& final(g).ttls() == t
            &&& final(out)@ == old(out)@ + encode(r)
        }),
{
    if cmd.len() < 2 {
        out_err(out, MSG_DEL_ARITY);
        return;
    }
    let ghost c = key_views(cmd@);
    let mut deleted_count: u64 = 0;
    let mut i: usize = 1;
    while i < cmd.len()
        invariant
            g.wf(),
            1 <= i <= cmd@.len(),
            c == key_views(cmd@),
            deleted_count < i,
            (g.keys(), g.ttls(), deleted_count as nat) == del_fold(old(g).keys(), old(g).ttls(), c.subrange(1, i as int)),
        decreases cmd@.len() - i,
    {
        assert(c.subrange(1, i + 1).drop_last() =~= c.subrange(1, i as int));
        if g.entry_del(cmd[i].as_slice()) {
            deleted_count = deleted_count + 1;
        }
        i = i + 1;
    }
    assert(c.subrange(1, i as int) == c.subrange(1, c.len() as int));
    out_int(out, deleted_count as i64);
}

pub fn do_keys(g: &GData, out: &mut Buffer)
    requires
        g.wf(),
        old(out).wf(),
    ensures
        final(out).wf(),
        exists|ks: Seq<Seq<u8>>| keys_listing(g.keys(), ks)
            && final(out)@ == old(out)@ + encode(Reply::Arr(str_items(ks))),
{
    let ks = g.db.keys();
    let ghost kv = key_views(ks@);
    let n = ks.len();
    out_arr(out, n as u32);
    let ghost head = out@;
    let mut i: usize = 0;
    while i < n
        invariant
            out.wf(),
            n == ks@.len(),
            kv == key_views(ks@),
            i <= n,
            out@ == head + str_items(kv.subrange(0, i as int)).flatten(),
        decreases n - i,
    {
        let ghost before = str_items(kv.subrange(0, i as int));
        out_str(out, ks[i].as_slice());
        proof {
            assert(str_items(kv.subrange(0, i + 1)) =~= before.push(encode(Reply::Str(kv[i as int]))));
            before.lemma_flatten_push(encode(Reply::Str(kv[i as int])));
        }
        i = i + 1;
    }
    proof {
        assert(kv.subrange(0, n as int) =~= kv);
        assert(keys_listing(g.keys(), kv));
        assert(str_items(kv).len() == n);
        assert(out@ =~= old(out)@ + encode(Reply::Arr(str_items(kv))));
    }
}


/// Number of score-member pairs of a `ZADD`.
pub open spec fn npairs(c: Seq<Seq<u8>>) -> nat {
    ((c.len() - 2) / 2) as nat
}

/// The first pair from `i` on whose score did not parse; `n` if none.
pub open spec fn first_bad(sc: Seq<Option<u64>>, i: nat, n: nat) -> nat
    decreases n - i,
{
    if i >= n {
        n
    } else if sc[2 + 2 * i as int].is_none() {
        i
    } else {
        first_bad(sc, i + 1, n)
    }
}

/// Adding the first `j` pairs in turn: the members after, and how many
/// were new.
pub open spec fn zadd_fold(m: Map<Seq<u8>, u64>, c: Seq<Seq<u8>>, sc: Seq<Option<u64>>, j: nat) -> (Map<Seq<u8>, u64>, nat)
    decreases j,
{
    if j == 0 {
        (m, 0)
    } else {
        let (m1, a) = zadd_fold(m, c, sc, (j - 1) as nat);
        let name = c[3 + 2 * (j - 1)];
        let score = sc[2 + 2 * (j - 1)].unwrap();
        (m1.insert(name, score), a + if m1.contains_key(name) { 0nat } else { 1nat })
    }
}

/// `ZADD`.
pub open spec fn zadd_step(db: Keys, ttl: Ttls, c: Seq<Seq<u8>>, sc: Seq<Option<u64>>) -> (Keys, Ttls, Reply) {
    if c.len() < 4 || c.len() % 2 != 0 {
        (db, ttl, err(MSG_ZADD_ARITY))
    } else if first_bad(sc, 0, npairs(c)) < npairs(c) {
        (db, ttl, Reply::Error(MSG_ZADD_SCORE.spec_bytes() + c[2 + 2 * first_bad(sc, 0, npairs(c)) as int]))
    } else {
        let k = c[1];
        let m0 = if db.contains_key(k) {
            match db[k] {
                VModel::ZSet(m) => m,
                _ => Map::empty(),
            }
        } else {
            Map::empty()
        };
        if db.contains_key(k) && !(db[k] is ZSet) {
            (db, ttl, err(MSG_WRONGTYPE))
        } else if (!db.contains_key(k) && db.dom().len() + 9 >= usize::MAX) || m0.dom().len() + npairs(c) + 3
            >= usize::MAX {
            (db, ttl, err(MSG_OOM))
        } else {
            let (m1, a) = zadd_fold(m0, c, sc, npairs(c));
            (db.insert(k, VModel::ZSet(m1)), ttl, Reply::Int(a as i64))
        }
    }
}

/// Removing the members `ks` in turn: the members after, and how many were
/// present when their turn came.
pub open spec fn zrem_fold(m: Map<Seq<u8>, u64>, ks: Seq<Seq<u8>>) -> (Map<Seq<u8>, u64>, nat)
    decreases ks.len(),
{
    if ks.len() == 0 {
        (m, 0)
    } else {
        let (m1, r) = zrem_fold(m, ks.drop_last());
        let k = ks.last();
        if m1.contains_key(k) {
            (m1.remove(k), r + 1)
        } else {
            (m1, r)
        }
    }
}

/// `ZREM`; a set left empty takes its key with it.
pub open spec fn zrem_step(db: Keys, ttl: Ttls, c: Seq<Seq<u8>>) -> (Keys, Ttls, Reply) {
    if c.len() < 3 {
        (db, ttl, err(MSG_ZREM_ARITY))
    } else if !db.contains_key(c[1]) {
        (db, ttl, Reply::Int(0))
    } else {
        match db[c[1]] {
            VModel::ZSet(m) => {
                let (m1, r) = zrem_fold(m, c.subrange(2, c.len() as int));
                if m1.dom().len() == 0 {
                    (db.remove(c[1]), ttl.remove(c[1]), Reply::Int(r as i64))
                } else {
                    (db.insert(c[1], VModel::ZSet(m1)), ttl, Reply::Int(r as i64))
                }
            },
            _ => (db, ttl, err(MSG_WRONGTYPE)),
        }
    }
}

/// Writes the error reply for a `ZADD` score token that did not parse.
fn out_bad_score(out: &mut Buffer, tok: &[u8])
    requires
        old(out).wf(),
    ensures
        final(out).wf(),
        final(out)@ == old(out)@ + encode(Reply::Error(MSG_ZADD_SCORE.spec_bytes() + tok@)),
{
    let mut msg = vstd::slice::slice_to_vec(MSG_ZADD_SCORE.as_bytes());
    let mut i: usize = 0;
    let ghost m0 = msg@;
    while i < tok.len()
        invariant
            i <= tok@.len(),
            msg@ == m0 + tok@.subrange(0, i as int),
        decreases tok@.len() - i,
    {
        msg.push(tok[i]);
        assert(msg@ =~= m0 + tok@.subrange(0, i + 1));
        i = i + 1;
    }
    assert(tok@.subrange(0, i as int) =~= tok@);
    out.append_u8(crate::buffer::TAG_ERR);
    out.append_u32(msg.len() as u32);
    out.append(msg.as_slice());
    assert(final(out)@ =~= old(out)@ + encode(Reply::Error(msg@)));
}

pub fn do_zadd(g: &mut GData, cmd: &Vec<Vec<u8>>, scores: &Vec<Option<u64>>, out: &mut Buffer)
    requires
        old(g).wf(),
        old(out).wf(),
        scores@.len() == cmd@.len(),
    ensures
        final(g).wf(),
        final(out).wf(),
        ({
            let (d, t, r) = zadd_step(old(g).keys(), old(g).ttls(), key_views(cmd@), scores@);
            &&& final(g).keys() == d
            &&& final(g).ttls() == t
            &&& final(out)@ == old(out)@ + encode(r)
        }),
{
    let ghost c = key_views(cmd@);
    let ghost sc = scores@;
    if cmd.len() < 4 || cmd.len() % 2 != 0 {
        out_err(out, MSG_ZADD_ARITY);
        return;
    }
    let cl = cmd.len();
    let n = (cmd.len() - 2) / 2;
    assert(cmd@.len() == 2 + 2 * n);
    let mut i: usize = 0;
    while i < n
        invariant
            *g == *old(g),
            g.wf(),
            *out == *old(out),
            out.wf(),
            cl == cmd@.len(),
            n == npairs(c),
            c == key_views(cmd@),
            sc == scores@,
            scores@.len() == cmd@.len(),
            cmd@.len() == 2 + 2 * n,
            i <= n,
            first_bad(sc, 0, n as nat) == first_bad(sc, i as nat, n as nat),
        decreases n - i,
    {
        if scores[2 + 2 * i].is_none() {
            out_bad_score(out, cmd[2 + 2 * i].as_slice());
            return;
        }
        i = i + 1;
    }
    let key = cmd[1].as_slice();
    proof {
        g.lemma_keys();
        g.db.lemma_union();
    }
    let zlen: usize = match g.db.lookup(key) {
        None => 0,
        Some(e) => match &e.value {
            Value::ZSet(z) => z.len(),
            _ => {
                out_err(out, MSG_WRONGTYPE);
                return;
            },
        },
    };
    let absent = g.db.lookup(key).is_none();
    if (absent && g.db.size() + 9 >= usize::MAX) || zlen >= usize::MAX - 3 - n {
        out_err(out, MSG_OOM);
        return;
    }
    let ghost m0 = if g.keys().contains_key(c[1]) {
        match g.keys()[c[1]] {
            VModel::ZSet(m) => m,
            _ => Map::empty(),
        }
    } else {
        Map::empty()
    };
    let ghost g0 = *g;
    let mut zs = if absent {
        ZSet::new()
    } else {
        match g.db.delete_entry_and_return(key) {
            Some(e) => match e.value {
                Value::ZSet(z) => z,
                _ => {
                    proof {
                        assert(false);
                    }
                    ZSet::new()
                },
            },
            None => {
                proof {
                    assert(false);
                }
                ZSet::new()
            },
        }
    };
    assert(zs@ == m0);
    let ghost g1 = *g;
    let mut added: u64 = 0;
    let mut j: usize = 0;
    while j < n
        invariant
            *g == g1,
            *out == *old(out),
            out.wf(),
            cl == cmd@.len(),
            n == npairs(c),
            c == key_views(cmd@),
            sc == scores@,
            scores@.len() == cmd@.len(),
            cmd@.len() == 2 + 2 * n,
            j <= n,
            first_bad(sc, 0, n as nat) == n,
            zs.wf(),
            (zs@, added as nat) == zadd_fold(m0, c, sc, j as nat),
            zs@.dom().len() <= m0.dom().len() + j,
            m0.dom().len() + n + 3 < usize::MAX,
            added <= j,
        decreases n - j,
    {
        proof {
            lemma_first_bad(sc, 0, n as nat, j as nat);
        }
        let score = match scores[2 + 2 * j] {
            Some(s) => s,
            None => {
                proof {
                    assert(false);
                }
                0
            },
        };
        let name = vstd::slice::slice_to_vec(cmd[3 + 2 * j].as_slice());
        proof {
            zs.lemma_ordered();
        }
        let ghost zb = zs@;
        if zs.insert(score, name) {
            added = added + 1;
        }
        proof {
            zs.lemma_ordered();
            if zb.contains_key(c[3 + 2 * j]) {
                assert(zs@.dom() =~= zb.dom());
            } else {
                assert(zs@.dom() =~= zb.dom().insert(c[3 + 2 * j]));
            }
        }
        j = j + 1;
    }
    let k = vstd::slice::slice_to_vec(key);
    let e = Entry::new_zset(zs);
    proof {
        g.db.lemma_union();
        g.lemma_keys();
    }
    g.db.insert(k, e);
    proof {
        g.db.lemma_union();
        GData::lemma_keys_insert(&g1, g, c[1], e);
        if absent {
            assert(g1.keys() == g0.keys());
            assert(g1.db@ == g0.db@);
        } else {
            GData::lemma_keys_remove(&g0, &g1, c[1]);
        }
        assert(g.keys() =~= old(g).keys().insert(c[1], VModel::ZSet(zs@)));
        assert forall|x: Seq<u8>| #[trigger] g.db@.contains_key(x) implies g.db@[x].value.wf() by {
            if x != c[1] {
                assert(g1.db@.contains_key(x));
                assert(old(g).db@.contains_key(x));
            }
        }
        assert(g.heap@.dom().subset_of(g.db@.dom()));
        assert(g.db@.dom() =~= old(g).db@.dom().insert(c[1]));
    }
    out_int(out, added as i64);
}

proof fn lemma_first_bad(sc: Seq<Option<u64>>, i: nat, n: nat, j: nat)
    requires
        first_bad(sc, i, n) == n,
        i <= j < n,
    ensures
        sc[2 + 2 * j as int].is_some(),
    decreases j - i,
{
    if i < j {
        lemma_first_bad(sc, i + 1, n, j);
    }
}

pub fn do_zrem(g: &mut GData, cmd: &Vec<Vec<u8>>, out: &mut Buffer)
    requires
        old(g).wf(),
        old(out).wf(),
    ensures
        final(g).wf(),
        final(out).wf(),
        ({
            let (d, t, r) = zrem_step(old(g).keys(), old(g).ttls(), key_views(cmd@));
            &&& final(g).keys() == d
            &&& final(g).ttls() == t
            &&& final(out)@ == old(out)@ + encode(r)
        }),
{
    let ghost c = key_views(cmd@);
    if cmd.len() < 3 {
        out_err(out, MSG_ZREM_ARITY);
        return;
    }
    let key = cmd[1].as_slice();
    proof {
        g.lemma_keys();
        g.db.lemma_union();
    }
    match g.db.lookup(key) {
        None => {
            out_int(out, 0);
            return;
        },
        Some(e) => match &e.value {
            Value::ZSet(_) => {},
            _ => {
                out_err(out, MSG_WRONGTYPE);
                return;
            },
        },
    }
    let ghost g0 = *g;
    let ghost m0 = match g.keys()[c[1]] {
        VModel::ZSet(m) => m,
        _ => Map::empty(),
    };
    let entry = g.db.delete_entry_and_return(key);
    let mut zs = match entry {
        Some(e) => match e.value {
            Value::ZSet(z) => z,
            _ => {
                proof {
                    assert(false);
                }
                ZSet::new()
            },
        },
        None => {
            proof {
                assert(false);
            }
            ZSet::new()
        },
    };
    assert(zs@ == m0);
    let ghost g1 = *g;
    let mut removed: u64 = 0;
    let mut i: usize = 2;
    while i < cmd.len()
        invariant
            *g == g1,
            *out == *old(out),
            out.wf(),
            c == key_views(cmd@),
            2 <= i <= cmd@.len(),
            zs.wf(),
            removed < i,
            (zs@, removed as nat) == zrem_fold(m0, c.subrange(2, i as int)),
        decreases cmd@.len() - i,
    {
        assert(c.subrange(2, i + 1).drop_last() =~= c.subrange(2, i as int));
        let member = cmd[i].as_slice();
        if zs.lookup(member).is_some() {
            zs.delete(member);
            removed = removed + 1;
        }
        i = i + 1;
    }
    assert(c.subrange(2, i as int) == c.subrange(2, c.len() as int));
    proof {
        GData::lemma_keys_remove(&g0, &g1, c[1]);
        g.db.lemma_union();
    }
    if !zs.is_empty() {
        let k = vstd::slice::slice_to_vec(key);
        let e = Entry::new_zset(zs);
        g.db.insert(k, e);
        proof {
            g.db.lemma_union();
            GData::lemma_keys_insert(&g1, g, c[1], e);
            assert(g.keys() =~= old(g).keys().insert(c[1], VModel::ZSet(zs@)));
            assert forall|x: Seq<u8>| #[trigger] g.db@.contains_key(x) implies g.db@[x].value.wf() by {
                if x != c[1] {
                    assert(old(g).db@.contains_key(x));
                }
            }
            assert(g.heap@.dom().subset_of(g.db@.dom()));
            assert(g.db@.dom() =~= old(g).db@.dom());
        }
    } else {
        let _ = g.heap.remove_key(key);
        proof {
            assert forall|x: Seq<u8>| #[trigger] g.db@.contains_key(x) implies g.db@[x].value.wf() by {
                assert(old(g).db@.contains_key(x));
            }
            assert(g.heap@.dom().subset_of(g.db@.dom()));
            assert(g.db@.dom().len() <= old(g).db@.dom().len());
        }
    }
    out_int(out, removed as i64);
}


/// `s` lists the members of `m` with their scores, in order.
pub open spec fn is_ordering(m: Map<Seq<u8>, u64>, s: Seq<Pair>) -> bool {
    &&& sorted(s)
    &&& forall|p: Pair| s.contains(p) <==> (m.contains_key(p.1) && m[p.1] == p.0)
}

/// The members of a sorted set with their scores, in order.
pub open spec fn ordered_of(m: Map<Seq<u8>, u64>) -> Seq<Pair> {
    choose|s: Seq<Pair>| is_ordering(m, s)
}

pub open spec fn is_lower_bound(s: Seq<Pair>, k: Pair, i: int) -> bool {
    &&& 0 <= i <= s.len()
    &&& forall|j: int| 0 <= j < i ==> pair_lt(#[trigger] s[j], k)
    &&& forall|j: int| i <= j < s.len() ==> !pair_lt(#[trigger] s[j], k)
}

/// The position of the least element of `s` not below `k`.
pub open spec fn lower_bound(s: Seq<Pair>, k: Pair) -> int {
    choose|i: int| is_lower_bound(s, k, i)
}

pub open spec fn min_int(a: int, b: int) -> int {
    if a <= b { a } else { b }
}

/// Each of the `cnt` elements from position `start` as a name reply and a
/// score reply.
pub open spec fn pair_items(s: Seq<Pair>, start: int, cnt: int) -> Seq<Seq<u8>> {
    Seq::new(
        (2 * cnt) as nat,
        |i: int|
            if i % 2 == 0 {
                encode(Reply::Str(s[start + i / 2].1))
            } else {
                encode(Reply::Dbl(score_bits(s[start + i / 2].0)))
            },
    )
}

/// The items of a `ZQUERY` reply: from the least element not below `k`,
/// moved by `off` places, up to `lim` elements (and `K_MAX_QUERY_PAIRS`).
pub open spec fn zq_items(s: Seq<Pair>, k: Pair, off: i64, lim: usize) -> Seq<Seq<u8>> {
    let p = lower_bound(s, k);
    if p >= s.len() {
        Seq::empty()
    } else {
        let start = p + off;
        if start < 0 || start >= s.len() {
            Seq::empty()
        } else {
            pair_items(s, start, min_int(min_int(lim as int, s.len() - start), K_MAX_QUERY_PAIRS as int))
        }
    }
}

/// The reply to `ZQUERY key score name offset limit`.
pub open spec fn zquery_reply(db: Keys, c: Seq<Seq<u8>>, sc: Seq<Option<u64>>) -> Reply {
    if c.len() < 6 {
        err(MSG_ZQUERY_ARITY)
    } else if sc[2].is_none() {
        err(MSG_BAD_SCORE)
    } else if parse_i64_spec(c[4]).is_none() {
        err(MSG_BAD_OFFSET)
    } else if parse_usize_spec(c[5]).is_none() {
        err(MSG_BAD_LIMIT)
    } else if !db.contains_key(c[1]) {
        Reply::Nil
    } else {
        match db[c[1]] {
            VModel::ZSet(m) => Reply::Arr(
                zq_items(ordered_of(m), (sc[2].unwrap(), c[3]), parse_i64_spec(c[4]).unwrap(), parse_usize_spec(c[5]).unwrap()),
            ),
            _ => err(MSG_WRONGTYPE),
        }
    }
}

proof fn lemma_lower_bound_unique(s: Seq<Pair>, k: Pair, i: int)
    requires
        is_lower_bound(s, k, i),
    ensures
        lower_bound(s, k) == i,
{
    let j = lower_bound(s, k);
    assert(is_lower_bound(s, k, j));
    if j < i {
        assert(pair_lt(s[j], k));
    } else if i < j {
        assert(pair_lt(s[i], k));
    }
}

pub fn do_zquery(g: &GData, cmd: &Vec<Vec<u8>>, scores: &Vec<Option<u64>>, out: &mut Buffer)
    requires
        g.wf(),
        old(out).wf(),
        scores@.len() == cmd@.len(),
    ensures
        final(out).wf(),
        final(out)@ == old(out)@ + encode(zquery_reply(g.keys(), key_views(cmd@), scores@)),
{
    let ghost c = key_views(cmd@);
    if cmd.len() < 6 {
        out_err(out, MSG_ZQUERY_ARITY);
        return;
    }
    let score = match scores[2] {
        None => {
            out_err(out, MSG_BAD_SCORE);
            return;
        },
        Some(s) => s,
    };
    let offset = match parse_i64(cmd[4].as_slice()) {
        None => {
            out_err(out, MSG_BAD_OFFSET);
            return;
        },
        Some(o) => o,
    };
    let limit = match parse_usize(cmd[5].as_slice()) {
        None => {
            out_err(out, MSG_BAD_LIMIT);
            return;
        },
        Some(l) => l,
    };
    proof {
        g.lemma_keys();
    }
    let zs = match g.db.lookup(cmd[1].as_slice()) {
        None => {
            out_nil(out);
            return;
        },
        Some(e) => match &e.value {
            Value::ZSet(z) => z,
            _ => {
                out_err(out, MSG_WRONGTYPE);
                return;
            },
        },
    };
    let name = cmd[3].as_slice();
    let ghost k = (score, name@);
    let ghost s = zs.ordered();
    proof {
        zs.lemma_ordered();
        let o = ordered_of(zs@);
        assert(is_ordering(zs@, s));
        assert(is_ordering(zs@, o));
        lemma_sorted_unique(s, o);
    }
    let ctx = out.out_begin_arr();
    let ghost head = out@;
    let mut n2: u32 = 0;
    let mut j: usize = 0;
    let ghost mut st: int = 0;
    let ghost mut cnt: int = 0;
    match zs.zset_seekge(score, name) {
        None => {
            proof {
                lemma_lower_bound_unique(s, k, s.len() as int);
            }
        },
        Some(p) => {
            proof {
                lemma_lower_bound_unique(s, k, p as int);
            }
            let start: i128 = p as i128 + offset as i128;
            let len = zs.len();
            if 0 <= start && start < len as i128 {
                let b = start as usize;
                proof {
                    st = b as int;
                    cnt = min_int(min_int(limit as int, s.len() - b), K_MAX_QUERY_PAIRS as int);
                }
                while j < limit && j < len - b && j < K_MAX_QUERY_PAIRS
                    invariant
                        zs.wf(),
                        out.wf(),
                        s == zs.ordered(),
                        len == s.len(),
                        b < len,
                        st == b,
                        cnt == min_int(min_int(limit as int, s.len() - b), K_MAX_QUERY_PAIRS as int),
                        j <= cnt,
                        n2 == 2 * j,
                        head.len() == ctx + 5,
                        out@ == head + pair_items(s, b as int, j as int).flatten(),
                    decreases K_MAX_QUERY_PAIRS - j,
                {
                    let (sv, nm) = zs.at(b + j);
                    let ghost before = pair_items(s, b as int, j as int);
                    out_str(out, nm);
                    out_dbl(out, score_bits_of(sv));
                    proof {
                        let a1 = encode(Reply::Str(s[b + j].1));
                        let a2 = encode(Reply::Dbl(score_bits(s[b + j].0)));
                        assert(pair_items(s, b as int, j + 1) =~= before.push(a1).push(a2));
                        before.lemma_flatten_push(a1);
                        before.push(a1).lemma_flatten_push(a2);
                    }
                    n2 = n2 + 2;
                    j = j + 1;
                }
            }
        },
    }
    let ghost items = pair_items(s, st, j as int);
    proof {
        if j == 0 {
            assert(items =~= Seq::<Seq<u8>>::empty());
        }
        assert(out@[ctx as int] == TAG_ARR);
    }
    out.out_end_arr(ctx, n2);
    proof {
        let zi = zq_items(s, k, offset, limit);
        assert(items.len() == 2 * j);
        assert(zi == items) by {
            if j == 0 {
                assert(zi =~= Seq::<Seq<u8>>::empty());
            }
        }
        assert(out@ =~= old(out)@ + encode(Reply::Arr(items)));
    }
}

/// The deadline `secs` seconds after `now`, at most `u64::MAX`.
pub open spec fn deadline_after(now: u64, secs: i64) -> u64 {
    if now + secs * 1000 > u64::MAX {
        u64::MAX
    } else {
        (now + secs * 1000) as u64
    }
}

/// `EXPIRE key seconds`.
pub open spec fn expire_step(db: Keys, ttl: Ttls, c: Seq<Seq<u8>>, now: u64) -> (Keys, Ttls, Reply) {
    if c.len() < 3 {
        (db, ttl, err(MSG_EXPIRE_ARITY))
    } else {
        match parse_i64_spec(c[2]) {
            None => (db, ttl, err(MSG_EXPECT_INT)),
            Some(secs) => if !db.contains_key(c[1]) {
                (db, ttl, Reply::Int(0))
            } else if secs <= 0 {
                (db, ttl.remove(c[1]), Reply::Int(1))
            } else {
                (db, ttl.insert(c[1], deadline_after(now, secs)), Reply::Int(1))
            },
        }
    }
}

/// After `EXPIRE k s` with `s > 0` on a present key at time `now`, the key
/// has its deadline `now + 1000 s` (at most `u64::MAX`): a timer tick at a
/// time up to that deadline keeps the key, and a tick after it that
/// expires fewer than `K_MAX_WORKS` keys removes it.
pub proof fn lemma_expire_then_tick(
    db: Keys,
    ttl: Ttls,
    c: Seq<Seq<u8>>,
    now: u64,
    tick: u64,
    db3: Keys,
    ttl3: Ttls,
    n: nat,
)
    requires
        c.len() >= 3,
        parse_i64_spec(c[2]) is Some,
        parse_i64_spec(c[2]).unwrap() > 0,
        db.contains_key(c[1]),
        tick_rel(expire_step(db, ttl, c, now).0, expire_step(db, ttl, c, now).1, tick, db3, ttl3, n),
    ensures
        expire_step(db, ttl, c, now).2 == Reply::Int(1),
        tick <= deadline_after(now, parse_i64_spec(c[2]).unwrap()) ==> db3.contains_key(c[1]),
        tick > deadline_after(now, parse_i64_spec(c[2]).unwrap()) && n < K_MAX_WORKS ==> !db3.contains_key(c[1]),
{
    let d = deadline_after(now, parse_i64_spec(c[2]).unwrap());
    let t2 = expire_step(db, ttl, c, now).1;
    assert(t2 == ttl.insert(c[1], d));
    assert(t2.contains_key(c[1]));
    if tick <= d {
        if !ttl3.contains_key(c[1]) {
            assert(t2[c[1]] < tick);
        }
    }
    if tick > d && n < K_MAX_WORKS {
        if ttl3.contains_key(c[1]) {
            assert(ttl3[c[1]] == d);
        }
    }
}

/// `TTL key`: whole seconds left, rounded up (0 for a deadline already
/// passed whose key the next tick has yet to remove); -1 without a
/// deadline; -2 for an absent key.
pub open spec fn ttl_reply(db: Keys, ttl: Ttls, c: Seq<Seq<u8>>, now: u64) -> Reply {
    if c.len() < 2 {
        err(MSG_TTL_ARITY)
    } else if !db.contains_key(c[1]) {
        Reply::Int(-2i64)
    } else if !ttl.contains_key(c[1]) {
        Reply::Int(-1i64)
    } else if ttl[c[1]] > now {
        Reply::Int(((ttl[c[1]] - now + 999) / 1000) as i64)
    } else {
        Reply::Int(0)
    }
}

/// `PERSIST key`.
pub open spec fn persist_step(db: Keys, ttl: Ttls, c: Seq<Seq<u8>>) -> (Keys, Ttls, Reply) {
    if c.len() < 2 {
        (db, ttl, err(MSG_PERSIST_ARITY))
    } else if db.contains_key(c[1]) && ttl.contains_key(c[1]) {
        (db, ttl.remove(c[1]), Reply::Int(1))
    } else {
        (db, ttl, Reply::Int(0))
    }
}

pub fn do_expire(g: &mut GData, cmd: &Vec<Vec<u8>>, now_ms: u64, out: &mut Buffer)
    requires
        old(g).wf(),
        old(out).wf(),
    ensures
        final(g).wf(),
        final(out).wf(),
        ({
            let (d, t, r) = expire_step(old(g).keys(), old(g).ttls(), key_views(cmd@), now_ms);
            &&& final(g).keys() == d
            &&& final(g).ttls() == t
            &&& final(out)@ == old(out)@ + encode(r)
        }),
{
    if cmd.len() < 3 {
        out_err(out, MSG_EXPIRE_ARITY);
        return;
    }
    let secs = match parse_i64(cmd[2].as_slice()) {
        None => {
            out_err(out, MSG_EXPECT_INT);
            return;
        },
        Some(s) => s,
    };
    let key = cmd[1].as_slice();
    proof {
        g.lemma_keys();
        g.lemma_heap_len();
    }
    if g.db.lookup(key).is_none() {
        out_int(out, 0);
        return;
    }
    if secs <= 0 {
        let _ = g.heap.remove_key(key);
    } else {
        let s = secs as u64;
        let ms: u64 = if s <= u64::MAX / 1000 { s * 1000 } else { u64::MAX };
        let deadline: u64 = if ms <= u64::MAX - now_ms { now_ms + ms } else { u64::MAX };
        assert(deadline == deadline_after(now_ms, secs));
        g.heap.heap_upsert(key, deadline);
    }
    proof {
        assert(g.heap@.dom().subset_of(g.db@.dom()));
    }
    out_int(out, 1);
}

pub fn do_ttl(g: &GData, cmd: &Vec<Vec<u8>>, now_ms: u64, out: &mut Buffer)
    requires
        g.wf(),
        old(out).wf(),
    ensures
        final(out).wf(),
        final(out)@ == old(out)@ + encode(ttl_reply(g.keys(), g.ttls(), key_views(cmd@), now_ms)),
{
    if cmd.len() < 2 {
        out_err(out, MSG_TTL_ARITY);
        return;
    }
    let key = cmd[1].as_slice();
    proof {
        g.lemma_keys();
    }
    if g.db.lookup(key).is_none() {
        out_int(out, -2);
        return;
    }
    match g.heap.get(key) {
        None => {
            out_int(out, -1);
        },
        Some(expire_at) => {
            if expire_at > now_ms {
                let remaining_ms = expire_at - now_ms;
                let secs = remaining_ms / 1000 + if remaining_ms % 1000 != 0 { 1 } else { 0 };
                assert(secs == (remaining_ms + 999) / 1000);
                out_int(out, secs as i64);
            } else {
                out_int(out, 0);
            }
        },
    }
}

pub fn do_persist(g: &mut GData, cmd: &Vec<Vec<u8>>, out: &mut Buffer)
    requires
        old(g).wf(),
        old(out).wf(),
    ensures
        final(g).wf(),
        final(out).wf(),
        ({
            let (d, t, r) = persist_step(old(g).keys(), old(g).ttls(), key_views(cmd@));
            &&& final(g).keys() == d
            &&& final(g).ttls() == t
            &&& final(out)@ == old(out)@ + encode(r)
        }),
{
    if cmd.len() < 2 {
        out_err(out, MSG_PERSIST_ARITY);
        return;
    }
    let key = cmd[1].as_slice();
    proof {
        g.lemma_keys();
    }
    if g.db.lookup(key).is_some() && g.heap.remove_key(key) {
        proof {
            assert(g.heap@.dom().subset_of(g.db@.dom()));
        }
        out_int(out, 1);
    } else {
        out_int(out, 0);
    }
}


pub open spec fn name_is(t: Seq<u8>, n: Seq<u8>) -> bool {
    ascii_upper(t) == n
}

pub open spec fn n_get() -> Seq<u8> { seq![71u8, 69, 84] }
pub open spec fn n_set() -> Seq<u8> { seq![83u8, 69, 84] }
pub open spec fn n_del() -> Seq<u8> { seq![68u8, 69, 76] }
pub open spec fn n_keys() -> Seq<u8> { seq![75u8, 69, 89, 83] }
pub open spec fn n_zadd() -> Seq<u8> { seq![90u8, 65, 68, 68] }
pub open spec fn n_zrem() -> Seq<u8> { seq![90u8, 82, 69, 77] }
pub open spec fn n_zquery() -> Seq<u8> { seq![90u8, 81, 85, 69, 82, 89] }
pub open spec fn n_expire() -> Seq<u8> { seq![69u8, 88, 80, 73, 82, 69] }
pub open spec fn n_ttl() -> Seq<u8> { seq![84u8, 84, 76] }
pub open spec fn n_persist() -> Seq<u8> { seq![80u8, 69, 82, 83, 73, 83, 84] }

/// One command: from keys `db` and deadlines `ttl`, the request `c` (with
/// the order keys `sc` of the tokens that read as scores) at time `now`
/// leads to `db2`, `ttl2` and reply `r`.
pub open spec fn step_rel(
    db: Keys,
    ttl: Ttls,
    c: Seq<Seq<u8>>,
    sc: Seq<Option<u64>>,
    now: u64,
    db2: Keys,
    ttl2: Ttls,
    r: Reply,
) -> bool {
    let same = db2 == db && ttl2 == ttl;
    if name_is(c[0], n_get()) {
        same && r == get_reply(db, c)
    } else if name_is(c[0], n_set()) {
        (db2, ttl2, r) == set_step(db, ttl, c)
    } else if name_is(c[0], n_del()) {
        (db2, ttl2, r) == del_step(db, ttl, c)
    } else if name_is(c[0], n_keys()) {
        same && exists|ks: Seq<Seq<u8>>| keys_listing(db, ks) && r == Reply::Arr(str_items(ks))
    } else if name_is(c[0], n_zadd()) {
        (db2, ttl2, r) == zadd_step(db, ttl, c, sc)
    } else if name_is(c[0], n_zrem()) {
        (db2, ttl2, r) == zrem_step(db, ttl, c)
    } else if name_is(c[0], n_zquery()) {
        same && r == zquery_reply(db, c, sc)
    } else if name_is(c[0], n_expire()) {
        (db2, ttl2, r) == expire_step(db, ttl, c, now)
    } else if name_is(c[0], n_ttl()) {
        same && r == ttl_reply(db, ttl, c, now)
    } else if name_is(c[0], n_persist()) {
        (db2, ttl2, r) == persist_step(db, ttl, c)
    } else {
        same && r == err(MSG_UNKNOWN)
    }
}

/// Runs the command `cmd` and writes its reply.
pub fn dispatch(g: &mut GData, cmd: &Vec<Vec<u8>>, scores: &Vec<Option<u64>>, now_ms: u64, out: &mut Buffer)
    requires
        old(g).wf(),
        old(out).wf(),
        cmd@.len() > 0,
        scores@.len() == cmd@.len(),
    ensures
        final(g).wf(),
        final(out).wf(),
        exists|r: Reply| step_rel(old(g).keys(), old(g).ttls(), key_views(cmd@), scores@, now_ms,
            final(g).keys(), final(g).ttls(), r) && final(out)@ == old(out)@ + encode(r),
{
    let ghost c = key_views(cmd@);
    let name = cmd[0].as_slice();
    let nm_get = [71u8, 69u8, 84u8];
    let nm_set = [83u8, 69u8, 84u8];
    let nm_del = [68u8, 69u8, 76u8];
    let nm_keys = [75u8, 69u8, 89u8, 83u8];
    let nm_zadd = [90u8, 65u8, 68u8, 68u8];
    let nm_zrem = [90u8, 82u8, 69u8, 77u8];
    let nm_zquery = [90u8, 81u8, 85u8, 69u8, 82u8, 89u8];
    let nm_expire = [69u8, 88u8, 80u8, 73u8, 82u8, 69u8];
    let nm_ttl = [84u8, 84u8, 76u8];
    let nm_persist = [80u8, 69u8, 82u8, 83u8, 73u8, 83u8, 84u8];
    proof {
        assert(nm_get@ =~= n_get());
        assert(nm_set@ =~= n_set());
        assert(nm_del@ =~= n_del());
        assert(nm_keys@ =~= n_keys());
        assert(nm_zadd@ =~= n_zadd());
        assert(nm_zrem@ =~= n_zrem());
        assert(nm_zquery@ =~= n_zquery());
        assert(nm_expire@ =~= n_expire());
        assert(nm_ttl@ =~= n_ttl());
        assert(nm_persist@ =~= n_persist());
    }
    if is_cmd(name, &nm_get) {
        do_get(g, cmd, out);
        assert(step_rel(old(g).keys(), old(g).ttls(), c, scores@, now_ms, g.keys(), g.ttls(), get_reply(g.keys(), c)));
    } else if is_cmd(name, &nm_set) {
        do_set(g, cmd, out);
        let ghost r = set_step(old(g).keys(), old(g).ttls(), c).2;
        assert(step_rel(old(g).keys(), old(g).ttls(), c, scores@, now_ms, g.keys(), g.ttls(), r));
    } else if is_cmd(name, &nm_del) {
        do_del(g, cmd, out);
        let ghost r = del_step(old(g).keys(), old(g).ttls(), c).2;
        assert(step_rel(old(g).keys(), old(g).ttls(), c, scores@, now_ms, g.keys(), g.ttls(), r));
    } else if is_cmd(name, &nm_keys) {
        do_keys(g, out);
        let ghost ks = choose|ks: Seq<Seq<u8>>| keys_listing(g.keys(), ks)
            && out@ == old(out)@ + encode(Reply::Arr(str_items(ks)));
        assert(step_rel(old(g).keys(), old(g).ttls(), c, scores@, now_ms, g.keys(), g.ttls(), Reply::Arr(str_items(ks))));
    } else if is_cmd(name, &nm_zadd) {
        do_zadd(g, cmd, scores, out);
        let ghost r = zadd_step(old(g).keys(), old(g).ttls(), c, scores@).2;
        assert(step_rel(old(g).keys(), old(g).ttls(), c, scores@, now_ms, g.keys(), g.ttls(), r));
    } else if is_cmd(name, &nm_zrem) {
        do_zrem(g, cmd, out);
        let ghost r = zrem_step(old(g).keys(), old(g).ttls(), c).2;
        assert(step_rel(old(g).keys(), old(g).ttls(), c, scores@, now_ms, g.keys(), g.ttls(), r));
    } else if is_cmd(name, &nm_zquery) {
        do_zquery(g, cmd, scores, out);
        assert(step_rel(old(g).keys(), old(g).ttls(), c, scores@, now_ms, g.keys(), g.ttls(), zquery_reply(g.keys(), c, scores@)));
    } else if is_cmd(name, &nm_expire) {
        do_expire(g, cmd, now_ms, out);
        let ghost r = expire_step(old(g).keys(), old(g).ttls(), c, now_ms).2;
        assert(step_rel(old(g).keys(), old(g).ttls(), c, scores@, now_ms, g.keys(), g.ttls(), r));
    } else if is_cmd(name, &nm_ttl) {
        do_ttl(g, cmd, now_ms, out);
        assert(step_rel(old(g).keys(), old(g).ttls(), c, scores@, now_ms, g.keys(), g.ttls(), ttl_reply(g.keys(), g.ttls(), c, now_ms)));
    } else if is_cmd(name, &nm_persist) {
        do_persist(g, cmd, out);
        let ghost r = persist_step(old(g).keys(), old(g).ttls(), c).2;
        assert(step_rel(old(g).keys(), old(g).ttls(), c, scores@, now_ms, g.keys(), g.ttls(), r));
    } else {
        out_err(out, MSG_UNKNOWN);
        assert(step_rel(old(g).keys(), old(g).ttls(), c, scores@, now_ms, g.keys(), g.ttls(), err(MSG_UNKNOWN)));
    }
}

/// Serves one request: runs its command and appends the framed reply. An
/// empty request gets no reply.
pub fn one_request(g: &mut GData, cmd: &Vec<Vec<u8>>, scores: &Vec<Option<u64>>, now_ms: u64, out: &mut Buffer)
    requires
        old(g).wf(),
        old(out).wf(),
        scores@.len() == cmd@.len(),
    ensures
        final(g).wf(),
        final(out).wf(),
        cmd@.len() == 0 ==> *final(g) == *old(g) && final(out)@ == old(out)@,
        cmd@.len() > 0 ==> exists|r: Reply| step_rel(old(g).keys(), old(g).ttls(), key_views(cmd@), scores@, now_ms,
            final(g).keys(), final(g).ttls(), r) && final(out)@ == framed(old(out)@, encode(r)),
{
    if cmd.len() == 0 {
        return;
    }
    let header_pos = out.response_begin();
    let ghost pre = out@;
    dispatch(g, cmd, scores, now_ms, out);
    let ghost r = choose|r: Reply| step_rel(old(g).keys(), old(g).ttls(), key_views(cmd@), scores@, now_ms,
        g.keys(), g.ttls(), r) && out@ == pre + encode(r);
    proof {
        assert(out@.subrange(0, header_pos as int) =~= old(out)@);
        assert(out@.subrange(header_pos + 4, out@.len() as int) =~= encode(r));
    }
    out.response_end(header_pos);
}

/// The whole frames at the head of a byte stream, in order, the bytes left
/// after them, and whether a length over `K_MAX_MSG` stopped the reading.
pub open spec fn parse_stream(s: Seq<u8>) -> (Seq<Seq<u8>>, Seq<u8>, bool)
    decreases s.len(),
{
    if s.len() < 4 {
        (Seq::empty(), s, false)
    } else {
        let n = from_le32(s) as int;
        if n > K_MAX_MSG {
            (Seq::empty(), s, true)
        } else if s.len() < 4 + n {
            (Seq::empty(), s, false)
        } else {
            let (fs, rest, bad) = parse_stream(s.subrange(4 + n, s.len() as int));
            (seq![s.subrange(4, 4 + n)] + fs, rest, bad)
        }
    }
}

/// However a stream is split into reads, the same requests come out:
/// reading `a` and then the rest with `b` appended yields the frames of
/// `a + b`, as long as no oversized length was met in `a`.
pub proof fn lemma_parse_split(a: Seq<u8>, b: Seq<u8>)
    requires
        !parse_stream(a).2,
    ensures
        parse_stream(a + b) == (
            parse_stream(a).0 + parse_stream(parse_stream(a).1 + b).0,
            parse_stream(parse_stream(a).1 + b).1,
            parse_stream(parse_stream(a).1 + b).2,
        ),
    decreases a.len(),
{
    let ab = a + b;
    if a.len() < 4 {
        assert(parse_stream(a).0 =~= Seq::<Seq<u8>>::empty());
        assert(parse_stream(a).0 + parse_stream(a + b).0 =~= parse_stream(a + b).0);
    } else {
        let n = from_le32(a) as int;
        assert(ab[0] == a[0] && ab[1] == a[1] && ab[2] == a[2] && ab[3] == a[3]);
        assert(from_le32(ab) == from_le32(a));
        if a.len() < 4 + n {
            assert(parse_stream(a).0 + parse_stream(a + b).0 =~= parse_stream(a + b).0);
        } else {
            let a2 = a.subrange(4 + n, a.len() as int);
            assert(ab.subrange(4 + n, ab.len() as int) =~= a2 + b);
            assert(ab.subrange(4, 4 + n) =~= a.subrange(4, 4 + n));
            lemma_parse_split(a2, b);
            let body = a.subrange(4, 4 + n);
            assert(seq![body] + parse_stream(a2).0 + parse_stream(parse_stream(a2).1 + b).0 =~= seq![body] + (
            parse_stream(a2).0 + parse_stream(parse_stream(a2).1 + b).0));
        }
    }
}

/// What the head of a connection's input holds.
pub enum Frame {
    /// Not yet a whole frame.
    Incomplete,
    /// A length over `K_MAX_MSG`: the connection is to be closed.
    TooLong,
    /// The body of the next request, now consumed with its length.
    Request(Vec<u8>),
}

/// Takes the next whole request frame off the head of `incoming`.
pub fn try_parse_request(incoming: &mut Buffer) -> (r: Frame)
    requires
        old(incoming).wf(),
    ensures
        final(incoming).wf(),
        old(incoming)@.len() < 4 ==> r is Incomplete && final(incoming)@ == old(incoming)@,
        old(incoming)@.len() >= 4 ==> {
            let n = from_le32(old(incoming)@) as int;
            if n > K_MAX_MSG {
                r is TooLong && final(incoming)@ == old(incoming)@
            } else if old(incoming)@.len() < 4 + n {
                r is Incomplete && final(incoming)@ == old(incoming)@
            } else {
                &&& r is Request
                &&& r->Request_0@ == old(incoming)@.subrange(4, 4 + n)
                &&& final(incoming)@ == old(incoming)@.subrange(4 + n, old(incoming)@.len() as int)
            }
        },
        r is Request ==> parse_stream(old(incoming)@) == (
            seq![r->Request_0@] + parse_stream(final(incoming)@).0,
            parse_stream(final(incoming)@).1,
            parse_stream(final(incoming)@).2,
        ),
        r is Incomplete ==> parse_stream(old(incoming)@) == (Seq::<Seq<u8>>::empty(), old(incoming)@, false),
        r is TooLong ==> parse_stream(old(incoming)@).2,
{
    if incoming.len() < 4 {
        return Frame::Incomplete;
    }
    let data = incoming.data();
    let msg_len = read_le32(data) as usize;
    if msg_len > K_MAX_MSG {
        return Frame::TooLong;
    }
    let total_len = 4 + msg_len;
    if incoming.len() < total_len {
        return Frame::Incomplete;
    }
    let body = vstd::slice::slice_to_vec(vstd::slice::slice_subrange(data, 4, total_len));
    incoming.consume(total_len);
    Frame::Request(body)
}

} // verus!
