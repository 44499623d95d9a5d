//! Path extraction from a request buffer.
//!
//! A request is a byte buffer. The file path is the text strictly between
//! the first occurrence of `GET ` and the first occurrence of ` HTTP/1.1`,
//! with every leading `/` removed. Both markers are ASCII, so the search
//! works on the raw bytes.

use vstd::prelude::*;

verus! {

/// The bytes of the opening marker, `"GET "`.
pub open spec fn get_marker() -> Seq<u8> {
    seq![71u8, 69u8, 84u8, 32u8]
}

/// The bytes of the closing marker, `" HTTP/1.1"`.
pub open spec fn http_marker() -> Seq<u8> {
    seq![32u8, 72u8, 84u8, 84u8, 80u8, 47u8, 49u8, 46u8, 49u8]
}

/// `pat` occurs in `s` starting exactly at index `i`.
pub open spec fn match_at(s: Seq<u8>, pat: Seq<u8>, i: int) -> bool {
    &&& 0 <= i
    &&& i + pat.len() <= s.len()
    &&& s.subrange(i, i + pat.len()) == pat
}

/// The least index at or after `i` where `pat` occurs in `s`, if any.
pub open spec fn first_match_from(s: Seq<u8>, pat: Seq<u8>, i: int) -> Option<int>
    decreases s.len() + 1 - i,
{
    if i < 0 || i + pat.len() > s.len() {
        None
    } else if match_at(s, pat, i) {
        Some(i)
    } else {
        first_match_from(s, pat, i + 1)
    }
}

/// The least index where `pat` occurs in `s`, if any.
pub open spec fn first_match(s: Seq<u8>, pat: Seq<u8>) -> Option<int> {
    first_match_from(s, pat, 0)
}

/// `first_match_from` finds exactly the least occurrence at or after `i`.
pub proof fn lemma_first_match_from(s: Seq<u8>, pat: Seq<u8>, i: int)
    requires
        0 <= i,
    ensures
        match first_match_from(s, pat, i) {
            Some(j) => {
                &&& i <= j
                &&& match_at(s, pat, j)
                &&& forall|k: int| i <= k < j ==> !match_at(s, pat, k)
            },
            None => forall|k: int| i <= k ==> !match_at(s, pat, k),
        },
    decreases s.len() + 1 - i,
{
    if i + pat.len() > s.len() {
        assert forall|k: int| i <= k implies !match_at(s, pat, k) by {
            assert(k + pat.len() >= i + pat.len());
        }
    } else if match_at(s, pat, i) {
    } else {
        lemma_first_match_from(s, pat, i + 1);
    }
}

/// An occurrence at `i` with none before it is the first occurrence.
pub proof fn lemma_first_match_is(s: Seq<u8>, pat: Seq<u8>, i: int)
    requires
        match_at(s, pat, i),
        forall|k: int| 0 <= k < i ==> !match_at(s, pat, k),
    ensures
        first_match(s, pat) == Some(i),
{
    lemma_first_match_from(s, pat, 0);
    match first_match_from(s, pat, 0) {
        Some(j) => {
            if j < i {
                assert(!match_at(s, pat, j));
            }
            if i < j {
                assert(!match_at(s, pat, i));
            }
        },
        None => {
            assert(!match_at(s, pat, i));
        },
    }
}

/// No occurrence anywhere means no first occurrence.
pub proof fn lemma_first_match_none(s: Seq<u8>, pat: Seq<u8>)
    requires
        forall|k: int| !match_at(s, pat, k),
    ensures
        first_match(s, pat) is None,
{
    lemma_first_match_from(s, pat, 0);
    match first_match_from(s, pat, 0) {
        Some(j) => {
            assert(!match_at(s, pat, j));
        },
        None => {},
    }
}

/// `s` with every leading `/` byte removed.
pub open spec fn strip_leading_slashes(s: Seq<u8>) -> Seq<u8>
    decreases s.len(),
{
    if s.len() > 0 && s[0] == 47u8 {
        strip_leading_slashes(s.subrange(1, s.len() as int))
    } else {
        s
    }
}

/// The extracted path: the bytes strictly between the first `GET ` marker's
/// end and the first ` HTTP/1.1` marker's start, leading slashes stripped.
/// No path when either marker is absent or the two positions are inverted.
pub open spec fn extract_spec(s: Seq<u8>) -> Option<Seq<u8>> {
    match first_match(s, get_marker()) {
        None => None,
        Some(g) => match first_match(s, http_marker()) {
            None => None,
            Some(e) => {
                let start = g + get_marker().len();
                if start <= e {
                    Some(strip_leading_slashes(s.subrange(start, e)))
                } else {
                    None
                }
            },
        },
    }
}

/// Stripping a sequence whose first `j` bytes are `/` and whose byte at `j`
/// (if any) is not `/` drops exactly those `j` bytes.
proof fn lemma_strip_prefix(s: Seq<u8>, j: int)
    requires
        0 <= j <= s.len(),
        forall|m: int| 0 <= m < j ==> s[m] == 47u8,
        j == s.len() || s[j] != 47u8,
    ensures
        strip_leading_slashes(s) == s.subrange(j, s.len() as int),
    decreases j,
{
    if j == 0 {
        assert(s.subrange(0, s.len() as int) =~= s);
    } else {
        let t = s.subrange(1, s.len() as int);
        lemma_strip_prefix(t, j - 1);
        assert(t.subrange(j - 1, t.len() as int) =~= s.subrange(j, s.len() as int));
    }
}

/// Law: a request in which either marker never occurs yields no path.
pub proof fn lemma_missing_marker_no_path(s: Seq<u8>)
    requires
        (forall|i: int| !match_at(s, get_marker(), i)) || (forall|i: int|
            !match_at(s, http_marker(), i)),
    ensures
        extract_spec(s) is None,
{
    if forall|i: int| !match_at(s, get_marker(), i) {
        lemma_first_match_none(s, get_marker());
    } else {
        lemma_first_match_none(s, http_marker());
    }
}

/// Law: when the closing marker first occurs before the end of the first
/// opening marker, extraction yields no path rather than an inverted range.
pub proof fn lemma_inverted_markers_no_path(s: Seq<u8>)
    requires
        first_match(s, get_marker()) is Some,
        first_match(s, http_marker()) is Some,
        first_match(s, http_marker()).unwrap() < first_match(s, get_marker()).unwrap()
            + get_marker().len(),
    ensures
        extract_spec(s) is None,
{
}

/// Law: a request that is exactly the opening marker, then a path free of
/// both markers and not beginning with the closing marker's tail
/// (`HTTP/1.1`), then the closing marker, yields exactly that path with its
/// leading slashes stripped.
pub proof fn lemma_request_line_extracts_path(p: Seq<u8>)
    requires
        forall|i: int| !match_at(p, get_marker(), i),
        forall|i: int| !match_at(p, http_marker(), i),
        !(p.len() >= 8 && p.subrange(0, 8) == http_marker().subrange(1, 9)),
    ensures
        extract_spec(get_marker() + p + http_marker()) == Some(strip_leading_slashes(p)),
{
    let t = get_marker() + p + http_marker();
    let e = 4 + p.len() as int;
    assert(t.len() == e + 9);
    assert(forall|k: int| 1 <= k < 9 ==> http_marker()[k] != 32u8);
    assert(t.subrange(0, 4) =~= get_marker());
    assert(match_at(t, get_marker(), 0));
    lemma_first_match_is(t, get_marker(), 0);
    assert(t.subrange(e, e + 9) =~= http_marker());
    assert(match_at(t, http_marker(), e));
    assert forall|i: int| 0 <= i < e implies !match_at(t, http_marker(), i) by {
        if match_at(t, http_marker(), i) {
            assert(forall|m: int|
                0 <= m < 9 ==> t.subrange(i, i + 9)[m] == http_marker()[m]);
            assert(forall|m: int| 0 <= m < 9 ==> t[i + m] == http_marker()[m]);
            if i < 3 {
                assert(t[i] == get_marker()[i]);
                assert(t[i] == 32u8);
            } else if i == 3 {
                if p.len() >= 8 {
                    assert forall|m: int| 0 <= m < 8 implies p.subrange(0, 8)[m]
                        == http_marker().subrange(1, 9)[m] by {
                        assert(t[4 + m] == p[m]);
                        assert(t[3 + (m + 1)] == http_marker()[m + 1]);
                    }
                    assert(p.subrange(0, 8) =~= http_marker().subrange(1, 9));
                } else {
                    let m = 1 + p.len() as int;
                    assert(t[3 + m] == t[e]);
                    assert(t[e] == http_marker()[0]);
                    assert(t[3 + m] == http_marker()[m]);
                }
            } else if i + 9 <= e {
                assert forall|m: int| 0 <= m < 9 implies p.subrange(i - 4, i + 5)[m]
                    == http_marker()[m] by {
                    assert(t[i + m] == p[i - 4 + m]);
                }
                assert(p.subrange(i - 4, i + 5) =~= http_marker());
                assert(match_at(p, http_marker(), i - 4));
            } else {
                let k = e - i;
                assert(t[i + k] == http_marker()[0]);
                assert(t[i + k] == http_marker()[k]);
            }
        }
    }
    lemma_first_match_is(t, http_marker(), e);
    assert(t.subrange(4, e) =~= p);
}

/// Whether `pat` occurs at index `i` of `hay`.
fn check_match_at(hay: &[u8], pat: &[u8], i: usize) -> (r: bool)
    requires
        i + pat@.len() <= hay@.len(),
    ensures
        r == match_at(hay@, pat@, i as int),
{
    let n = hay.len();
    let pn = pat.len();
    let mut j: usize = 0;
    while j < pn
        invariant
            n == hay@.len(),
            pn == pat@.len(),
            i + pn <= n,
            j <= pn,
            forall|m: int| 0 <= m < j ==> hay@[i + m] == pat@[m],
        decreases pn - j,
    {
        if hay[i + j] != pat[j] {
            proof {
                assert(hay@.subrange(i as int, i + pat@.len())[j as int] == hay@[i + j]);
            }
            return false;
        }
        j += 1;
    }
    proof {
        assert(hay@.subrange(i as int, i + pat@.len()) =~= pat@);
    }
    true
}

/// The least index where `pat` occurs in `hay`, searching byte by byte.
pub fn find_sub(hay: &[u8], pat: &[u8]) -> (r: Option<usize>)
    ensures
        match r {
            Some(i) => first_match(hay@, pat@) == Some(i as int),
            None => first_match(hay@, pat@) is None,
        },
{
    if pat.len() > hay.len() {
        proof {
            assert forall|k: int| !match_at(hay@, pat@, k) by {
                if 0 <= k {
                    assert(k + pat@.len() > hay@.len());
                }
            }
            lemma_first_match_none(hay@, pat@);
        }
        return None;
    }
    if pat.is_empty() {
        proof {
            assert(hay@.subrange(0, 0) =~= pat@);
            lemma_first_match_is(hay@, pat@, 0);
        }
        return Some(0);
    }
    let n = hay.len();
    let pn = pat.len();
    let mut i: usize = 0;
    while i <= n - pn
        invariant
            n == hay@.len(),
            pn == pat@.len(),
            1 <= pn <= n,
            i <= n - pn + 1,
            forall|k: int| 0 <= k < i ==> !match_at(hay@, pat@, k),
        decreases n - pn + 1 - i,
    {
        if check_match_at(hay, pat, i) {
            proof {
                lemma_first_match_is(hay@, pat@, i as int);
            }
            return Some(i);
        }
        i += 1;
    }
    proof {
        assert forall|k: int| !match_at(hay@, pat@, k) by {
            if 0 <= k < i {
            } else if k >= i {
                assert(k + pat@.len() > hay@.len());
            }
        }
        lemma_first_match_none(hay@, pat@);
    }
    None
}

/// Extract the file path from a request buffer: the bytes strictly between
/// the first `GET ` and the first ` HTTP/1.1`, with leading slashes removed.
/// Returns `None`, never an error, when the markers are absent or inverted.
pub fn extract_file_path(request: &[u8]) -> (r: Option<Vec<u8>>)
    ensures
        match r {
            Some(p) => extract_spec(request@) == Some(p@),
            None => extract_spec(request@) is None,
        },
{
    let get_pat: [u8; 4] = [71, 69, 84, 32];
    let http_pat: [u8; 9] = [32, 72, 84, 84, 80, 47, 49, 46, 49];
    proof {
        assert(get_pat@ =~= get_marker());
        assert(http_pat@ =~= http_marker());
    }
    let g = match find_sub(request, get_pat.as_slice()) {
        None => {
            return None;
        },
        Some(g) => g,
    };
    let n = request.len();
    proof {
        lemma_first_match_from(request@, get_marker(), 0);
        assert(g + 4 <= n);
    }
    let start = g + 4;
    let e = match find_sub(request, http_pat.as_slice()) {
        None => {
            return None;
        },
        Some(e) => e,
    };
    if e < start {
        return None;
    }
    proof {
        lemma_first_match_from(request@, http_marker(), 0);
    }
    let mut k = start;
    while k < e && request[k] == 47
        invariant
            start <= k <= e,
            e <= request@.len(),
            forall|m: int| start <= m < k ==> request@[m] == 47u8,
        decreases e - k,
    {
        k += 1;
    }
    let mut out: Vec<u8> = Vec::new();
    let mut m = k;
    while m < e
        invariant
            k <= m <= e,
            e <= request@.len(),
            out@ == request@.subrange(k as int, m as int),
        decreases e - m,
    {
        out.push(request[m]);
        proof {
            assert(out@ =~= request@.subrange(k as int, m + 1));
        }
        m += 1;
    }
    proof {
        let s = request@;
        let sub = s.subrange(start as int, e as int);
        let j = k - start;
        assert forall|mm: int| 0 <= mm < j implies sub[mm] == 47u8 by {
            assert(s[start + mm] == 47u8);
        }
        if k < e {
            assert(sub[j] == s[k as int]);
        }
        lemma_strip_prefix(sub, j);
        assert(sub.subrange(j, sub.len() as int) =~= s.subrange(k as int, e as int));
    }
    Some(out)
}

} // verus!
