use vstd::prelude::*;

verus! {

/// Bytes that separate the tokens of a request: ASCII whitespace and NUL.
pub open spec fn is_sep(b: u8) -> bool {
    b == 32 || b == 9 || b == 10 || b == 12 || b == 13 || b == 0
}

/// The tokens finished so far and the one being read, after the bytes `s`.
pub open spec fn tok_fold(s: Seq<u8>) -> (Seq<Seq<u8>>, Seq<u8>)
    decreases s.len(),
{
    if s.len() == 0 {
        (Seq::empty(), Seq::empty())
    } else {
        let (ts, cur) = tok_fold(s.drop_last());
        let b = s.last();
        if is_sep(b) {
            if cur.len() > 0 {
                (ts.push(cur), Seq::empty())
            } else {
                (ts, Seq::empty())
            }
        } else {
            (ts, cur.push(b))
        }
    }
}

/// The maximal runs of non-separator bytes of `s`, in order.
pub open spec fn tokens_of(s: Seq<u8>) -> Seq<Seq<u8>> {
    let (ts, cur) = tok_fold(s);
    if cur.len() > 0 {
        ts.push(cur)
    } else {
        ts
    }
}

pub open spec fn key_views(v: Seq<Vec<u8>>) -> Seq<Seq<u8>> {
    v.map_values(|x: Vec<u8>| x@)
}

/// Splits a request body into its tokens.
pub fn split_tokens(body: &[u8]) -> (r: Vec<Vec<u8>>)
    ensures
        key_views(r@) == tokens_of(body@),
{
    let mut ts: Vec<Vec<u8>> = Vec::new();
    let mut cur: Vec<u8> = Vec::new();
    let mut i: usize = 0;
    while i < body.len()
        invariant
            i <= body@.len(),
            (key_views(ts@), cur@) == tok_fold(body@.subrange(0, i as int)),
        decreases body@.len() - i,
    {
        let b = body[i];
        let ghost pre = body@.subrange(0, i as int);
        assert(body@.subrange(0, i + 1).drop_last() =~= pre);
        if b == 32 || b == 9 || b == 10 || b == 12 || b == 13 || b == 0 {
            if cur.len() > 0 {
                let ghost tv = key_views(ts@);
                let ghost cv = cur@;
                let mut done: Vec<u8> = Vec::new();
                std::mem::swap(&mut done, &mut cur);
                ts.push(done);
                assert(key_views(ts@) =~= tv.push(cv));
            }
            assert(cur@ =~= Seq::<u8>::empty());
        } else {
            cur.push(b);
        }
        i = i + 1;
    }
    assert(body@.subrange(0, i as int) =~= body@);
    if cur.len() > 0 {
        let ghost tv = key_views(ts@);
        let ghost cv = cur@;
        ts.push(cur);
        assert(key_views(ts@) =~= tv.push(cv));
    }
    ts
}

/// `b` with ASCII lower-case letters made upper-case.
pub open spec fn upper_byte(b: u8) -> u8 {
    if 97 <= b <= 122 {
        (b - 32) as u8
    } else {
        b
    }
}

pub open spec fn ascii_upper(s: Seq<u8>) -> Seq<u8> {
    s.map_values(|b: u8| upper_byte(b))
}

/// Whether `tok` names the command `name` (given in upper case), ignoring
/// ASCII case.
pub fn is_cmd(tok: &[u8], name: &[u8]) -> (r: bool)
    ensures
        r == (ascii_upper(tok@) == name@),
{
    if tok.len() != name.len() {
        proof {
            assert(ascii_upper(tok@).len() != name@.len());
        }
        return false;
    }
    let mut i: usize = 0;
    while i < tok.len()
        invariant
            tok@.len() == name@.len(),
            i <= tok@.len(),
            forall|j: int| 0 <= j < i ==> upper_byte(tok@[j]) == name@[j],
        decreases tok@.len() - i,
    {
        let b = tok[i];
        let u = if 97 <= b && b <= 122 { b - 32 } else { b };
        if u != name[i] {
            proof {
                assert(ascii_upper(tok@)[i as int] != name@[i as int]);
            }
            return false;
        }
        i = i + 1;
    }
    assert(ascii_upper(tok@) =~= name@);
    true
}

pub open spec fn is_digit(b: u8) -> bool {
    48 <= b <= 57
}

pub open spec fn all_digits(s: Seq<u8>) -> bool {
    forall|i: int| 0 <= i < s.len() ==> is_digit(#[trigger] s[i])
}

/// The number that decimal digits stand for.
pub open spec fn digits_val(s: Seq<u8>) -> nat
    decreases s.len(),
{
    if s.len() == 0 {
        0
    } else {
        digits_val(s.drop_last()) * 10 + (s.last() - 48) as nat
    }
}

/// A decimal integer with an optional sign, as `i64::from_str` and
/// `usize::from_str` read one before their range check.
pub open spec fn parse_int(s: Seq<u8>) -> Option<int> {
    if s.len() > 0 && (s[0] == 45 || s[0] == 43) {
        let d = s.drop_first();
        if d.len() > 0 && all_digits(d) {
            Some(if s[0] == 45 { -(digits_val(d) as int) } else { digits_val(d) as int })
        } else {
            None
        }
    } else if s.len() > 0 && all_digits(s) {
        Some(digits_val(s) as int)
    } else {
        None
    }
}

/// The `i64` that `s` spells, if it spells one.
pub open spec fn parse_i64_spec(s: Seq<u8>) -> Option<i64> {
    match parse_int(s) {
        Some(v) => if i64::MIN <= v <= i64::MAX { Some(v as i64) } else { None },
        None => None,
    }
}

/// The `usize` that `s` spells, if it spells one; no minus sign.
pub open spec fn parse_usize_spec(s: Seq<u8>) -> Option<usize> {
    if s.len() > 0 && s[0] == 45 {
        None
    } else {
        match parse_int(s) {
            Some(v) => if 0 <= v <= usize::MAX { Some(v as usize) } else { None },
            None => None,
        }
    }
}

proof fn lemma_digits_mono(s: Seq<u8>, i: int)
    requires
        0 <= i <= s.len(),
    ensures
        digits_val(s.subrange(0, i)) <= digits_val(s),
    decreases s.len() - i,
{
    if i < s.len() {
        lemma_digits_mono(s, i + 1);
        assert(s.subrange(0, i + 1).drop_last() =~= s.subrange(0, i));
    } else {
        assert(s.subrange(0, i) =~= s);
    }
}

/// The value of the digits of `d` if it is at most `bound`.
fn digits_upto(d: &[u8], start: usize, bound: u64) -> (r: Option<u64>)
    requires
        start <= d@.len(),
        bound >= 9,
    ensures
        match r {
            Some(v) => all_digits(d@.skip(start as int)) && v == digits_val(d@.skip(start as int)) && v <= bound,
            None => !all_digits(d@.skip(start as int)) || digits_val(d@.skip(start as int)) > bound,
        },
{
    let ghost s = d@.skip(start as int);
    let mut acc: u64 = 0;
    let mut i: usize = start;
    while i < d.len()
        invariant
            start <= i <= d@.len(),
            s == d@.skip(start as int),
            all_digits(s.subrange(0, i - start)),
            acc == digits_val(s.subrange(0, i - start)),
            acc <= bound,
            bound >= 9,
        decreases d@.len() - i,
    {
        let b = d[i];
        let ghost k = i - start;
        assert(s.subrange(0, k + 1).drop_last() =~= s.subrange(0, k));
        assert(s[k] == b);
        if b < 48 || b > 57 {
            proof {
                assert(!is_digit(s[k]));
            }
            return None;
        }
        let dv = (b - 48) as u64;
        if acc > (bound - dv) / 10 {
            proof {
                assert(digits_val(s.subrange(0, k + 1)) == acc * 10 + dv);
                assert(acc * 10 + dv > bound) by (nonlinear_arith)
                    requires acc > (bound - dv) / 10, dv <= bound;
                lemma_digits_mono(s, k + 1);
            }
            return None;
        }
        proof {
            assert(acc * 10 + dv <= bound) by (nonlinear_arith)
                requires acc <= (bound - dv) / 10, dv <= 9;
        }
        acc = acc * 10 + dv;
        i = i + 1;
        proof {
            assert forall|j: int| 0 <= j < i - start implies is_digit(#[trigger] s.subrange(0, i - start)[j]) by {
                if j < k {
                    assert(s.subrange(0, i - start)[j] == s.subrange(0, k)[j]);
                }
            }
        }
    }
    assert(s.subrange(0, i - start) =~= s);
    Some(acc)
}

/// Reads a signed 64-bit decimal integer.
pub fn parse_i64(s: &[u8]) -> (r: Option<i64>)
    ensures
        r == parse_i64_spec(s@),
{
    if s.len() == 0 {
        return None;
    }
    let neg = s[0] == 45;
    let start: usize = if s[0] == 45 || s[0] == 43 { 1 } else { 0 };
    if start == 1 && s.len() == 1 {
        return None;
    }
    proof {
        if start == 1 {
            assert(s@.skip(1) =~= s@.drop_first());
        } else {
            assert(s@.skip(0) =~= s@);
        }
    }
    let bound: u64 = if neg { 9223372036854775808 } else { 9223372036854775807 };
    match digits_upto(s, start, bound) {
        None => None,
        Some(v) => {
            if neg {
                if v == 9223372036854775808 {
                    Some(i64::MIN)
                } else {
                    Some(-(v as i64))
                }
            } else {
                Some(v as i64)
            }
        },
    }
}

/// Reads an unsigned decimal integer of at most `usize::MAX`.
pub fn parse_usize(s: &[u8]) -> (r: Option<usize>)
    ensures
        r == parse_usize_spec(s@),
{
    if s.len() == 0 || s[0] == 45 {
        return None;
    }
    let start: usize = if s[0] == 43 { 1 } else { 0 };
    if start == 1 && s.len() == 1 {
        return None;
    }
    proof {
        if start == 1 {
            assert(s@.skip(1) =~= s@.drop_first());
        } else {
            assert(s@.skip(0) =~= s@);
        }
    }
    match digits_upto(s, start, usize::MAX as u64) {
        None => None,
        Some(v) => Some(v as usize),
    }
}

} // verus!
