//! Byte-level sanitizer for auction listing payloads.
//!
//! Upstream listing documents often carry bytes that are not valid text inside
//! the two owner fields, which breaks text-mode decoding before any later
//! cleanup could run. The sanitizer therefore works on raw bytes: every
//! occurrence of the pattern
//!
//! ```text
//! "owner":"<anything>","ownerRealm":"<anything>","bid
//! ```
//!
//! is rewritten to `"owner":"_","ownerRealm":"_","bid`. Matches are found left
//! to right and do not overlap; each `<anything>` region is as short as
//! possible and takes any byte except a newline. The exact transformation is
//! `sanitize_bytes`.

use vstd::prelude::*;

verus! {

/// The bytes of `"owner":"`, the opener of a match.
pub open spec fn owner_lit() -> Seq<u8> {
    seq![34u8, 111u8, 119u8, 110u8, 101u8, 114u8, 34u8, 58u8, 34u8]
}

/// The bytes of `","ownerRealm":"`, the separator between the two fields.
pub open spec fn sep_realm_lit() -> Seq<u8> {
    seq![
        34u8,
        44u8,
        34u8,
        111u8,
        119u8,
        110u8,
        101u8,
        114u8,
        82u8,
        101u8,
        97u8,
        108u8,
        109u8,
        34u8,
        58u8,
        34u8,
    ]
}

/// The bytes of `","bid`, the closer of a match.
pub open spec fn sep_bid_lit() -> Seq<u8> {
    seq![34u8, 44u8, 34u8, 98u8, 105u8, 100u8]
}

/// The bytes of `"owner":"_","ownerRealm":"_","bid`, what a match becomes.
pub open spec fn replacement_lit() -> Seq<u8> {
    owner_lit() + seq![95u8] + sep_realm_lit() + seq![95u8] + sep_bid_lit()
}

/// The newline byte, which the wildcard regions of the pattern never take.
pub open spec fn newline_byte() -> u8 {
    10u8
}

/// Position of the first occurrence of `lit` at or after `from`, reached
/// without crossing a newline; -1 when a newline or the end of input comes
/// first.
pub open spec fn find_lit_from(s: Seq<u8>, from: int, lit: Seq<u8>) -> int
    recommends
        0 <= from <= s.len(),
        lit.len() >= 1,
    decreases s.len() - from,
        when 0 <= from <= s.len() && lit.len() >= 1
{
    if from + lit.len() > s.len() {
        -1
    } else if s.subrange(from, from + lit.len()) == lit {
        from
    } else if s[from] == newline_byte() {
        -1
    } else {
        find_lit_from(s, from + 1, lit)
    }
}

/// Where the match starting at `i` ends, or -1 when there is none: the opener
/// must sit at `i`, then the two separators are found by the shortest scans
/// that cross no newline.
pub open spec fn match_end(s: Seq<u8>, i: int) -> int
    recommends
        0 <= i <= s.len(),
{
    if i + 9 <= s.len() && s.subrange(i, i + 9) == owner_lit() {
        let p = find_lit_from(s, i + 9, sep_realm_lit());
        if p >= 0 {
            let q = find_lit_from(s, p + 16, sep_bid_lit());
            if q >= 0 {
                q + 6
            } else {
                -1
            }
        } else {
            -1
        }
    } else {
        -1
    }
}

/// The sanitized form of `s` from position `i` on: at a match, emit the
/// replacement and continue past the match; otherwise copy one byte.
pub open spec fn sanitize_from(s: Seq<u8>, i: int) -> Seq<u8>
    decreases s.len() - i,
{
    if i < 0 || i >= s.len() {
        Seq::empty()
    } else {
        let e = match_end(s, i);
        if i < e <= s.len() {
            replacement_lit() + sanitize_from(s, e)
        } else {
            seq![s[i]] + sanitize_from(s, i + 1)
        }
    }
}

/// The sanitized form of a whole payload.
pub open spec fn sanitize_bytes(s: Seq<u8>) -> Seq<u8> {
    sanitize_from(s, 0)
}

/// A found occurrence lies after the scan's start, fits in the input, and is
/// the literal it looked for.
proof fn lemma_find_lit_bounds(s: Seq<u8>, from: int, lit: Seq<u8>)
    requires
        0 <= from <= s.len(),
        lit.len() >= 1,
    ensures
        find_lit_from(s, from, lit) == -1 || (from <= find_lit_from(s, from, lit)
            && find_lit_from(s, from, lit) + lit.len() <= s.len() && s.subrange(
            find_lit_from(s, from, lit),
            find_lit_from(s, from, lit) + lit.len(),
        ) == lit),
    decreases s.len() - from,
{
    if from + lit.len() > s.len() {
    } else if s.subrange(from, from + lit.len()) == lit {
    } else if s[from] == newline_byte() {
    } else {
        lemma_find_lit_bounds(s, from + 1, lit);
    }
}

/// A match ends after the opener, inside the input.
proof fn lemma_match_end_bounds(s: Seq<u8>, i: int)
    requires
        0 <= i <= s.len(),
    ensures
        match_end(s, i) == -1 || (i + 9 <= match_end(s, i) && match_end(s, i) <= s.len()),
{
    if i + 9 <= s.len() && s.subrange(i, i + 9) == owner_lit() {
        lemma_find_lit_bounds(s, i + 9, sep_realm_lit());
        let p = find_lit_from(s, i + 9, sep_realm_lit());
        if p >= 0 {
            lemma_find_lit_bounds(s, p + 16, sep_bid_lit());
        }
    }
}

/// Whether `lit` sits at position `j` of `s`.
fn is_lit_at(s: &Vec<u8>, j: usize, lit: &Vec<u8>) -> (r: bool)
    requires
        j + lit@.len() <= s@.len(),
    ensures
        r == (s@.subrange(j as int, j as int + lit@.len()) == lit@),
{
    let n = s.len();
    let mut k: usize = 0;
    while k < lit.len()
        invariant
            0 <= k <= lit@.len(),
            n == s@.len(),
            j + lit@.len() <= s@.len(),
            forall|m: int| 0 <= m < k ==> s@[j + m] == lit@[m],
        decreases lit@.len() - k,
    {
        if s[j + k] != lit[k] {
            proof {
                assert(s@.subrange(j as int, j as int + lit@.len())[k as int] != lit@[k as int]);
            }
            return false;
        }
        k = k + 1;
    }
    proof {
        assert(s@.subrange(j as int, j as int + lit@.len()) =~= lit@);
    }
    true
}

/// Scans for `lit` from `from` on, stopping at a newline.
fn find_from(s: &Vec<u8>, from: usize, lit: &Vec<u8>) -> (r: Option<usize>)
    requires
        from <= s@.len(),
        lit@.len() >= 1,
    ensures
        match r {
            Some(p) => find_lit_from(s@, from as int, lit@) == p as int,
            None => find_lit_from(s@, from as int, lit@) == -1,
        },
{
    let mut j = from;
    while lit.len() <= s.len() - j
        invariant
            from <= j <= s@.len(),
            lit@.len() >= 1,
            find_lit_from(s@, from as int, lit@) == find_lit_from(s@, j as int, lit@),
        decreases s@.len() - j,
    {
        if is_lit_at(s, j, lit) {
            return Some(j);
        }
        if s[j] == 10u8 {
            return None;
        }
        j = j + 1;
    }
    None
}

/// Appends every byte of `src` to `out`.
fn append_bytes(out: &mut Vec<u8>, src: &Vec<u8>)
    ensures
        final(out)@ == old(out)@ + src@,
{
    let mut k: usize = 0;
    while k < src.len()
        invariant
            0 <= k <= src@.len(),
            out@ == old(out)@ + src@.take(k as int),
        decreases src@.len() - k,
    {
        let b = src[k];
        proof {
            assert(old(out)@ + src@.take(k as int + 1) =~= (old(out)@ + src@.take(k as int)).push(
                src@[k as int],
            ));
        }
        out.push(b);
        k = k + 1;
    }
    proof {
        assert(src@.take(src@.len() as int) =~= src@);
    }
}

/// The opener bytes, `"owner":"`.
fn owner_pattern() -> (v: Vec<u8>)
    ensures
        v@ == owner_lit(),
{
    let mut v: Vec<u8> = Vec::new();
    v.push(34u8);
    v.push(111u8);
    v.push(119u8);
    v.push(110u8);
    v.push(101u8);
    v.push(114u8);
    v.push(34u8);
    v.push(58u8);
    v.push(34u8);
    proof {
        assert(v@ =~= owner_lit());
    }
    v
}

/// The separator bytes, `","ownerRealm":"`.
fn sep_realm_pattern() -> (v: Vec<u8>)
    ensures
        v@ == sep_realm_lit(),
{
    let mut v: Vec<u8> = Vec::new();
    v.push(34u8);
    v.push(44u8);
    v.push(34u8);
    v.push(111u8);
    v.push(119u8);
    v.push(110u8);
    v.push(101u8);
    v.push(114u8);
    v.push(82u8);
    v.push(101u8);
    v.push(97u8);
    v.push(108u8);
    v.push(109u8);
    v.push(34u8);
    v.push(58u8);
    v.push(34u8);
    proof {
        assert(v@ =~= sep_realm_lit());
    }
    v
}

/// The closer bytes, `","bid`.
fn sep_bid_pattern() -> (v: Vec<u8>)
    ensures
        v@ == sep_bid_lit(),
{
    let mut v: Vec<u8> = Vec::new();
    v.push(34u8);
    v.push(44u8);
    v.push(34u8);
    v.push(98u8);
    v.push(105u8);
    v.push(100u8);
    proof {
        assert(v@ =~= sep_bid_lit());
    }
    v
}

/// The replacement bytes, `"owner":"_","ownerRealm":"_","bid`.
fn replacement_pattern() -> (v: Vec<u8>)
    ensures
        v@ == replacement_lit(),
{
    let mut v = owner_pattern();
    v.push(95u8);
    let sep = sep_realm_pattern();
    append_bytes(&mut v, &sep);
    v.push(95u8);
    let bid = sep_bid_pattern();
    append_bytes(&mut v, &bid);
    proof {
        assert(v@ =~= replacement_lit());
    }
    v
}

/// Rewrites every owner-field occurrence in a raw listings payload to
/// placeholder owners, so that the document becomes decodable text. The
/// result is exactly `sanitize_bytes` of the input.
pub fn sanitize_auction_body(s: &Vec<u8>) -> (r: Vec<u8>)
    ensures
        r@ == sanitize_bytes(s@),
{
    let owner = owner_pattern();
    let sep_realm = sep_realm_pattern();
    let sep_bid = sep_bid_pattern();
    let repl = replacement_pattern();
    let mut out: Vec<u8> = Vec::new();
    let mut i: usize = 0;
    while i < s.len()
        invariant
            0 <= i <= s@.len(),
            owner@ == owner_lit(),
            sep_realm@ == sep_realm_lit(),
            sep_bid@ == sep_bid_lit(),
            repl@ == replacement_lit(),
            sanitize_bytes(s@) == out@ + sanitize_from(s@, i as int),
        decreases s@.len() - i,
    {
        let mut end: Option<usize> = None;
        if s.len() - i >= 9 && is_lit_at(s, i, &owner) {
            match find_from(s, i + 9, &sep_realm) {
                Some(p) => {
                    proof {
                        lemma_find_lit_bounds(s@, i as int + 9, sep_realm_lit());
                    }
                    match find_from(s, p + 16, &sep_bid) {
                        Some(q) => {
                            proof {
                                lemma_find_lit_bounds(s@, p as int + 16, sep_bid_lit());
                            }
                            end = Some(q + 6);
                        },
                        None => {
                        },
                    }
                },
                None => {
                },
            }
        }
        match end {
            Some(e) => {
                proof {
                    assert(match_end(s@, i as int) == e as int);
                    lemma_match_end_bounds(s@, i as int);
                    assert(sanitize_from(s@, i as int) == replacement_lit() + sanitize_from(
                        s@,
                        e as int,
                    ));
                    assert(out@ + (replacement_lit() + sanitize_from(s@, e as int)) =~= (out@
                        + replacement_lit()) + sanitize_from(s@, e as int));
                }
                append_bytes(&mut out, &repl);
                i = e;
            },
            None => {
                proof {
                    assert(match_end(s@, i as int) == -1);
                    assert(sanitize_from(s@, i as int) == seq![s@[i as int]] + sanitize_from(
                        s@,
                        i as int + 1,
                    ));
                    assert(out@ + (seq![s@[i as int]] + sanitize_from(s@, i as int + 1)) =~= out@.push(
                        s@[i as int],
                    ) + sanitize_from(s@, i as int + 1));
                }
                let b = s[i];
                out.push(b);
                i = i + 1;
            },
        }
    }
    proof {
        assert(sanitize_from(s@, i as int) == Seq::<u8>::empty());
        assert(out@ + Seq::<u8>::empty() =~= out@);
    }
    out
}

} // verus!
