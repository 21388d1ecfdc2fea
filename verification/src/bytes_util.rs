use vstd::prelude::*;

verus! {

// --- Big-endian integer encodings (network order, used by the carriers) ---

pub open spec fn spec_u16_to_be_bytes(x: u16) -> Seq<u8> {
    seq![((x >> 8) & 0xff) as u8, (x & 0xff) as u8]
}

pub open spec fn spec_u16_from_be_bytes(s: Seq<u8>) -> u16
    recommends
        s.len() == 2,
{
    ((s[0] as u16) << 8) | (s[1] as u16)
}

pub open spec fn spec_u32_to_be_bytes(x: u32) -> Seq<u8> {
    seq![
        ((x >> 24) & 0xff) as u8,
        ((x >> 16) & 0xff) as u8,
        ((x >> 8) & 0xff) as u8,
        (x & 0xff) as u8,
    ]
}

pub open spec fn spec_u32_from_be_bytes(s: Seq<u8>) -> u32
    recommends
        s.len() == 4,
{
    ((s[0] as u32) << 24) | ((s[1] as u32) << 16) | ((s[2] as u32) << 8) | (s[3] as u32)
}

pub open spec fn spec_u64_to_be_bytes(x: u64) -> Seq<u8> {
    seq![
        ((x >> 56) & 0xff) as u8,
        ((x >> 48) & 0xff) as u8,
        ((x >> 40) & 0xff) as u8,
        ((x >> 32) & 0xff) as u8,
        ((x >> 24) & 0xff) as u8,
        ((x >> 16) & 0xff) as u8,
        ((x >> 8) & 0xff) as u8,
        (x & 0xff) as u8,
    ]
}

pub open spec fn spec_u64_from_be_bytes(s: Seq<u8>) -> u64
    recommends
        s.len() == 8,
{
    ((s[0] as u64) << 56) | ((s[1] as u64) << 48) | ((s[2] as u64) << 40) | ((s[3] as u64) << 32)
        | ((s[4] as u64) << 24) | ((s[5] as u64) << 16) | ((s[6] as u64) << 8) | (s[7] as u64)
}

pub proof fn lemma_u16_be_round_trip(x: u16)
    ensures
        spec_u16_to_be_bytes(x).len() == 2,
        spec_u16_from_be_bytes(spec_u16_to_be_bytes(x)) == x,
{
    let s = spec_u16_to_be_bytes(x);
    assert(((((x >> 8) & 0xff) as u8 as u16) << 8) | ((x & 0xff) as u8 as u16) == x)
        by (bit_vector);
    assert(s[0] == ((x >> 8) & 0xff) as u8);
    assert(s[1] == (x & 0xff) as u8);
}

pub proof fn lemma_u32_be_round_trip(x: u32)
    ensures
        spec_u32_to_be_bytes(x).len() == 4,
        spec_u32_from_be_bytes(spec_u32_to_be_bytes(x)) == x,
{
    let s = spec_u32_to_be_bytes(x);
    assert((
        ((((x >> 24) & 0xff) as u8 as u32) << 24)
        | ((((x >> 16) & 0xff) as u8 as u32) << 16)
        | ((((x >> 8) & 0xff) as u8 as u32) << 8)
        | ((x & 0xff) as u8 as u32)
    ) == x) by (bit_vector);
    assert(s[0] == ((x >> 24) & 0xff) as u8);
    assert(s[1] == ((x >> 16) & 0xff) as u8);
    assert(s[2] == ((x >> 8) & 0xff) as u8);
    assert(s[3] == (x & 0xff) as u8);
}

pub proof fn lemma_u64_be_round_trip(x: u64)
    ensures
        spec_u64_to_be_bytes(x).len() == 8,
        spec_u64_from_be_bytes(spec_u64_to_be_bytes(x)) == x,
{
    let s = spec_u64_to_be_bytes(x);
    assert((
        ((((x >> 56) & 0xff) as u8 as u64) << 56)
        | ((((x >> 48) & 0xff) as u8 as u64) << 48)
        | ((((x >> 40) & 0xff) as u8 as u64) << 40)
        | ((((x >> 32) & 0xff) as u8 as u64) << 32)
        | ((((x >> 24) & 0xff) as u8 as u64) << 24)
        | ((((x >> 16) & 0xff) as u8 as u64) << 16)
        | ((((x >> 8) & 0xff) as u8 as u64) << 8)
        | ((x & 0xff) as u8 as u64)
    ) == x) by (bit_vector);
    assert(s[0] == ((x >> 56) & 0xff) as u8);
    assert(s[1] == ((x >> 48) & 0xff) as u8);
    assert(s[2] == ((x >> 40) & 0xff) as u8);
    assert(s[3] == ((x >> 32) & 0xff) as u8);
    assert(s[4] == ((x >> 24) & 0xff) as u8);
    assert(s[5] == ((x >> 16) & 0xff) as u8);
    assert(s[6] == ((x >> 8) & 0xff) as u8);
    assert(s[7] == (x & 0xff) as u8);
}

pub fn u16_to_be_bytes(x: u16) -> (r: Vec<u8>)
    ensures
        r@ == spec_u16_to_be_bytes(x),
        r@.len() == 2,
{
    let mut r: Vec<u8> = Vec::new();
    r.push(((x >> 8) & 0xff) as u8);
    r.push((x & 0xff) as u8);
    proof {
        assert(r@ =~= spec_u16_to_be_bytes(x));
    }
    r
}

pub fn u16_from_be_bytes(b0: u8, b1: u8) -> (r: u16)
    ensures
        r == spec_u16_from_be_bytes(seq![b0, b1]),
{
    let r: u16 = ((b0 as u16) << 8) | (b1 as u16);
    proof {
        let s = seq![b0, b1];
        assert(s[0] == b0 && s[1] == b1);
    }
    r
}

pub fn u32_to_be_bytes(x: u32) -> (r: Vec<u8>)
    ensures
        r@ == spec_u32_to_be_bytes(x),
        r@.len() == 4,
{
    let mut r: Vec<u8> = Vec::new();
    r.push(((x >> 24) & 0xff) as u8);
    r.push(((x >> 16) & 0xff) as u8);
    r.push(((x >> 8) & 0xff) as u8);
    r.push((x & 0xff) as u8);
    proof {
        assert(r@ =~= spec_u32_to_be_bytes(x));
    }
    r
}

pub fn u32_from_be_slice(s: &[u8], start: usize) -> (r: u32)
    requires
        start + 4 <= s@.len(),
    ensures
        r == spec_u32_from_be_bytes(s@.subrange(start as int, start + 4)),
{
    let b0 = s[start];
    let b1 = s[start + 1];
    let b2 = s[start + 2];
    let b3 = s[start + 3];
    let r: u32 = ((b0 as u32) << 24) | ((b1 as u32) << 16) | ((b2 as u32) << 8) | (b3 as u32);
    proof {
        let sub = s@.subrange(start as int, start + 4);
        assert(sub[0] == b0 && sub[1] == b1 && sub[2] == b2 && sub[3] == b3);
    }
    r
}

pub fn u64_to_be_bytes(x: u64) -> (r: Vec<u8>)
    ensures
        r@ == spec_u64_to_be_bytes(x),
        r@.len() == 8,
{
    let mut r: Vec<u8> = Vec::new();
    r.push(((x >> 56) & 0xff) as u8);
    r.push(((x >> 48) & 0xff) as u8);
    r.push(((x >> 40) & 0xff) as u8);
    r.push(((x >> 32) & 0xff) as u8);
    r.push(((x >> 24) & 0xff) as u8);
    r.push(((x >> 16) & 0xff) as u8);
    r.push(((x >> 8) & 0xff) as u8);
    r.push((x & 0xff) as u8);
    proof {
        assert(r@ =~= spec_u64_to_be_bytes(x));
    }
    r
}

pub fn u64_from_be_slice(s: &[u8], start: usize) -> (r: u64)
    requires
        start + 8 <= s@.len(),
    ensures
        r == spec_u64_from_be_bytes(s@.subrange(start as int, start + 8)),
{
    let b0 = s[start];
    let b1 = s[start + 1];
    let b2 = s[start + 2];
    let b3 = s[start + 3];
    let b4 = s[start + 4];
    let b5 = s[start + 5];
    let b6 = s[start + 6];
    let b7 = s[start + 7];
    let r: u64 = ((b0 as u64) << 56) | ((b1 as u64) << 48) | ((b2 as u64) << 40) | (
    (b3 as u64) << 32) | ((b4 as u64) << 24) | ((b5 as u64) << 16) | ((b6 as u64) << 8) | (
    b7 as u64);
    proof {
        let sub = s@.subrange(start as int, start + 8);
        assert(sub[0] == b0 && sub[1] == b1 && sub[2] == b2 && sub[3] == b3);
        assert(sub[4] == b4 && sub[5] == b5 && sub[6] == b6 && sub[7] == b7);
    }
    r
}

// --- Byte-buffer helpers ---

/// Copies `s[start..end]` into a fresh vector.
pub fn subrange_to_vec(s: &[u8], start: usize, end: usize) -> (r: Vec<u8>)
    requires
        start <= end <= s@.len(),
    ensures
        r@ == s@.subrange(start as int, end as int),
{
    let mut r: Vec<u8> = Vec::new();
    let mut i: usize = start;
    while i < end
        invariant
            start <= i <= end <= s@.len(),
            r@ == s@.subrange(start as int, i as int),
        decreases end - i,
    {
        r.push(s[i]);
        i = i + 1;
        proof {
            assert(r@ =~= s@.subrange(start as int, i as int));
        }
    }
    r
}

/// Appends `s[start..end]` to `out`.
pub fn append_subrange(out: &mut Vec<u8>, s: &[u8], start: usize, end: usize)
    requires
        start <= end <= s@.len(),
    ensures
        final(out)@ == old(out)@ + s@.subrange(start as int, end as int),
{
    let mut i: usize = start;
    while i < end
        invariant
            start <= i <= end <= s@.len(),
            out@ == old(out)@ + s@.subrange(start as int, i as int),
        decreases end - i,
    {
        out.push(s[i]);
        i = i + 1;
        proof {
            assert(out@ =~= old(out)@ + s@.subrange(start as int, i as int));
        }
    }
}

/// The sequence `s` with `w` written over its bytes starting at `off`.
/// The write must stay within bounds.
pub open spec fn overwrite(s: Seq<u8>, off: int, w: Seq<u8>) -> Seq<u8>
    recommends
        0 <= off,
        off + w.len() <= s.len(),
{
    Seq::new(s.len(), |i: int| if off <= i < off + w.len() { w[i - off] } else { s[i] })
}

/// Writes `w` over `v` starting at `off`, in place.
pub fn write_at(v: &mut Vec<u8>, off: usize, w: &[u8])
    requires
        off + w@.len() <= old(v)@.len(),
    ensures
        final(v)@ == overwrite(old(v)@, off as int, w@),
{
    let mut i: usize = 0;
    let n = w.len();
    let total = v.len();
    while i < n
        invariant
            n == w@.len(),
            total == old(v)@.len(),
            off + n <= total,
            i <= n,
            v@.len() == old(v)@.len(),
            forall|j: int| 0 <= j < old(v)@.len() && !(off <= j < off + i) ==> v@[j] == old(v)@[j],
            forall|j: int| off <= j < off + i ==> v@[j] == w@[j - off],
        decreases n - i,
    {
        v.set(off + i, w[i]);
        i = i + 1;
    }
    proof {
        assert(v@ =~= overwrite(old(v)@, off as int, w@));
    }
}

// --- Pattern occurrences ---

/// True when `pat` occurs in `s` at position `i`.
pub open spec fn match_at(s: Seq<u8>, pat: Seq<u8>, i: int) -> bool {
    0 <= i && i + pat.len() <= s.len() && s.subrange(i, i + pat.len()) == pat
}

/// True when `pat` occurs anywhere in `s`.
pub open spec fn contains_pat(s: Seq<u8>, pat: Seq<u8>) -> bool {
    exists|i: int| match_at(s, pat, i)
}

/// The last position at which `pat` occurs in `s`, if any.
pub open spec fn last_match(s: Seq<u8>, pat: Seq<u8>) -> Option<int>
    decreases s.len(),
{
    if pat.len() == 0 || s.len() < pat.len() {
        None
    } else if s.subrange(s.len() - pat.len(), s.len() as int) == pat {
        Some(s.len() - pat.len())
    } else {
        last_match(s.take(s.len() - 1), pat)
    }
}

/// The first position at or after `i` at which `pat` occurs in `s`, if any.
pub open spec fn first_match_from(s: Seq<u8>, pat: Seq<u8>, i: int) -> Option<int>
    recommends
        0 <= i,
    decreases s.len() - i,
{
    if pat.len() == 0 || i < 0 || i + pat.len() > s.len() {
        None
    } else if s.subrange(i, i + pat.len()) == pat {
        Some(i)
    } else {
        first_match_from(s, pat, i + 1)
    }
}

/// `last_match` returns a genuine occurrence, and the largest one.
pub proof fn lemma_last_match_correct(s: Seq<u8>, pat: Seq<u8>)
    requires
        pat.len() >= 1,
    ensures
        last_match(s, pat) matches Some(i) ==> match_at(s, pat, i),
        forall|j: int|
            match_at(s, pat, j) ==> (last_match(s, pat) matches Some(i) && j <= i),
    decreases s.len(),
{
    if s.len() < pat.len() {
        assert forall|j: int| !match_at(s, pat, j) by {}
    } else if s.subrange(s.len() - pat.len(), s.len() as int) == pat {
        assert(match_at(s, pat, s.len() - pat.len()));
    } else {
        let t = s.take(s.len() - 1);
        lemma_last_match_correct(t, pat);
        assert forall|j: int| match_at(s, pat, j) implies match_at(t, pat, j) by {
            assert(j != s.len() - pat.len());
            assert(j + pat.len() <= s.len() - 1);
            assert(t.subrange(j, j + pat.len()) =~= s.subrange(j, j + pat.len()));
        }
        match last_match(t, pat) {
            Some(i) => {
                assert(match_at(t, pat, i));
                assert(t.subrange(i, i + pat.len()) =~= s.subrange(i, i + pat.len()));
                assert(match_at(s, pat, i));
            },
            None => {},
        }
    }
}

/// `first_match_from` returns a genuine occurrence, and the smallest one at
/// or after `i`.
pub proof fn lemma_first_match_from_correct(s: Seq<u8>, pat: Seq<u8>, i: int)
    requires
        pat.len() >= 1,
        0 <= i,
    ensures
        first_match_from(s, pat, i) matches Some(k) ==> match_at(s, pat, k) && i <= k,
        forall|j: int|
            i <= j && match_at(s, pat, j) ==> (first_match_from(s, pat, i) matches Some(k) && k
                <= j),
    decreases s.len() - i,
{
    if i + pat.len() > s.len() {
    } else if s.subrange(i, i + pat.len()) == pat {
    } else {
        lemma_first_match_from_correct(s, pat, i + 1);
    }
}

/// Compares `a[a_start..a_start+n]` with `b[b_start..b_start+n]`.
pub fn range_eq(a: &[u8], a_start: usize, b: &[u8], b_start: usize, n: usize) -> (r: bool)
    requires
        a_start + n <= a@.len(),
        b_start + n <= b@.len(),
    ensures
        r == (a@.subrange(a_start as int, a_start + n) == b@.subrange(b_start as int, b_start
            + n)),
{
    let alen = a.len();
    let blen = b.len();
    let mut i: usize = 0;
    while i < n
        invariant
            alen == a@.len(),
            blen == b@.len(),
            a_start + n <= alen,
            b_start + n <= blen,
            i <= n,
            forall|j: int| 0 <= j < i ==> a@[a_start + j] == #[trigger] b@[b_start + j],
        decreases n - i,
    {
        if a[a_start + i] != b[b_start + i] {
            proof {
                let sa = a@.subrange(a_start as int, a_start + n);
                let sb = b@.subrange(b_start as int, b_start + n);
                assert(sa[i as int] != sb[i as int]);
            }
            return false;
        }
        i = i + 1;
    }
    proof {
        let sa = a@.subrange(a_start as int, a_start + n);
        let sb = b@.subrange(b_start as int, b_start + n);
        assert forall|j: int| 0 <= j < n implies sa[j] == sb[j] by {
            assert(a@[a_start + j] == b@[b_start + j]);
        }
        assert(sa =~= sb);
    }
    true
}

/// Compares two byte strings for equality.
pub fn bytes_eq(a: &[u8], b: &[u8]) -> (r: bool)
    ensures
        r == (a@ == b@),
{
    let n = a.len();
    if n != b.len() {
        proof {
            assert(a@ != b@);
        }
        return false;
    }
    let r = range_eq(a, 0, b, 0, n);
    proof {
        assert(a@.subrange(0, n as int) =~= a@);
        assert(b@.subrange(0, n as int) =~= b@);
    }
    r
}

/// Finds the last occurrence of `pat` in `s`, scanning from the end.
pub fn find_last_match(s: &[u8], pat: &[u8]) -> (r: Option<usize>)
    requires
        pat@.len() >= 1,
    ensures
        match r {
            Some(i) => last_match(s@, pat@) == Some(i as int),
            None => last_match(s@, pat@) is None,
        },
{
    let n = s.len();
    let p = pat.len();
    if n < p {
        proof {
            lemma_last_match_correct(s@, pat@);
            match last_match(s@, pat@) {
                Some(k) => {
                    assert(match_at(s@, pat@, k));
                },
                None => {},
            }
        }
        return None;
    }
    let mut i: usize = n - p;
    loop
        invariant
            p == pat@.len(),
            n == s@.len(),
            1 <= p <= n,
            i <= n - p,
            forall|j: int| i < j ==> !match_at(s@, pat@, j),
        decreases i,
    {
        if range_eq(s, i, pat, 0, p) {
            proof {
                assert(pat@.subrange(0, p as int) =~= pat@);
                assert(match_at(s@, pat@, i as int));
                lemma_last_match_correct(s@, pat@);
            }
            return Some(i);
        }
        proof {
            assert(pat@.subrange(0, p as int) =~= pat@);
            assert(!match_at(s@, pat@, i as int));
        }
        if i == 0 {
            proof {
                lemma_last_match_correct(s@, pat@);
                match last_match(s@, pat@) {
                    Some(k) => {
                        assert(match_at(s@, pat@, k));
                        assert(false);
                    },
                    None => {},
                }
            }
            return None;
        }
        i = i - 1;
    }
}

/// Finds the first occurrence of `pat` in `s` at or after `from`.
pub fn find_first_match(s: &[u8], pat: &[u8], from: usize) -> (r: Option<usize>)
    requires
        pat@.len() >= 1,
    ensures
        match r {
            Some(i) => first_match_from(s@, pat@, from as int) == Some(i as int),
            None => first_match_from(s@, pat@, from as int) is None,
        },
{
    let n = s.len();
    let p = pat.len();
    let mut i: usize = from;
    loop
        invariant
            p == pat@.len(),
            n == s@.len(),
            p >= 1,
            from <= i,
            forall|j: int| from <= j < i ==> !match_at(s@, pat@, j),
        decreases n - i,
    {
        if i >= n || n - i < p {
            proof {
                lemma_first_match_from_correct(s@, pat@, from as int);
                match first_match_from(s@, pat@, from as int) {
                    Some(k) => {
                        assert(match_at(s@, pat@, k));
                        assert(false);
                    },
                    None => {},
                }
            }
            return None;
        }
        if range_eq(s, i, pat, 0, p) {
            proof {
                assert(pat@.subrange(0, p as int) =~= pat@);
                assert(match_at(s@, pat@, i as int));
                lemma_first_match_from_correct(s@, pat@, from as int);
            }
            return Some(i);
        }
        proof {
            assert(pat@.subrange(0, p as int) =~= pat@);
            assert(!match_at(s@, pat@, i as int));
        }
        i = i + 1;
    }
}

} // verus!
