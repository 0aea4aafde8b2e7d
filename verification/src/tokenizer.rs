//! Tokenization: raw document bytes become an ordered sequence of
//! normalized terms.
//!
//! The bytes are decoded as text (ill-formed sequences become replacement
//! characters, so decoding never fails), the text is split on ASCII
//! whitespace only — other whitespace, e.g. a non-breaking space, is
//! deliberately not a split point — and each fragment is stripped of leading
//! and trailing non-alphanumeric characters, dropped if it becomes empty,
//! and lowercased.

use vstd::prelude::*;

verus! {

/// The ASCII whitespace characters: space, tab, line feed, form feed and
/// carriage return. Splitting happens on exactly these.
pub open spec fn is_ascii_ws(c: char) -> bool {
    c == ' ' || c == '\t' || c == '\n' || c == '\x0C' || c == '\r'
}

/// What `String::from_utf8_lossy` returns on the given bytes: a function of
/// the bytes alone.
pub uninterp spec fn decoded_of(bytes: Seq<u8>) -> Seq<char>;

/// What `str::to_lowercase` returns on the given characters: a function of
/// the characters alone.
pub uninterp spec fn lower_of(s: Seq<char>) -> Seq<char>;

/// What `char::is_alphanumeric` returns on the given character: a pure,
/// Unicode-aware predicate.
pub uninterp spec fn is_alnum_char(c: char) -> bool;

/// Length of the leading run of non-whitespace characters of `s`.
pub open spec fn run_len(s: Seq<char>) -> int
    decreases s.len(),
{
    if s.len() == 0 || is_ascii_ws(s[0]) {
        0
    } else {
        1 + run_len(s.skip(1))
    }
}

pub proof fn lemma_run_len_bounds(s: Seq<char>)
    ensures
        0 <= run_len(s) <= s.len(),
    decreases s.len(),
{
    if s.len() == 0 || is_ascii_ws(s[0]) {
    } else {
        lemma_run_len_bounds(s.skip(1));
    }
}

/// `run_len` is the first whitespace position (or the length, if none).
pub proof fn lemma_run_len_is(s: Seq<char>, k: int)
    requires
        0 <= k <= s.len(),
        forall|i: int| 0 <= i < k ==> !is_ascii_ws(s[i]),
        k < s.len() ==> is_ascii_ws(s[k]),
    ensures
        run_len(s) == k,
    decreases k,
{
    if k == 0 {
    } else {
        lemma_run_len_is(s.skip(1), k - 1);
    }
}

/// The fragments of `s`: the maximal runs of non-whitespace characters, in
/// order.
pub open spec fn split_ws(s: Seq<char>) -> Seq<Seq<char>>
    decreases s.len(),
    via split_ws_decreases
{
    if s.len() == 0 {
        Seq::empty()
    } else if is_ascii_ws(s[0]) {
        split_ws(s.skip(1))
    } else {
        seq![s.take(run_len(s))] + split_ws(s.skip(run_len(s)))
    }
}

#[via_fn]
proof fn split_ws_decreases(s: Seq<char>) {
    lemma_run_len_bounds(s);
    if s.len() > 0 && !is_ascii_ws(s[0]) {
        lemma_run_len_bounds(s.skip(1));
        assert(run_len(s) == 1 + run_len(s.skip(1)));
    }
}

/// `f` with its leading non-alphanumeric characters removed.
pub open spec fn trim_front(f: Seq<char>) -> Seq<char>
    decreases f.len(),
{
    if f.len() > 0 && !is_alnum_char(f[0]) {
        trim_front(f.skip(1))
    } else {
        f
    }
}

/// `f` with its trailing non-alphanumeric characters removed.
pub open spec fn trim_back(f: Seq<char>) -> Seq<char>
    decreases f.len(),
{
    if f.len() > 0 && !is_alnum_char(f[f.len() - 1]) {
        trim_back(f.take(f.len() - 1))
    } else {
        f
    }
}

/// A fragment stripped of non-alphanumeric characters on both ends.
pub open spec fn trim_frag(f: Seq<char>) -> Seq<char> {
    trim_back(trim_front(f))
}

/// Normalize fragments: trim each, drop the ones that become empty,
/// lowercase the rest.
pub open spec fn norm_frags(frags: Seq<Seq<char>>) -> Seq<Seq<char>>
    decreases frags.len(),
{
    if frags.len() == 0 {
        Seq::empty()
    } else if trim_frag(frags[0]).len() == 0 {
        norm_frags(frags.skip(1))
    } else {
        seq![lower_of(trim_frag(frags[0]))] + norm_frags(frags.skip(1))
    }
}

/// The token sequence of a text: split on ASCII whitespace, trim each
/// fragment, drop fragments that become empty, lowercase the rest.
pub open spec fn tokens_of(text: Seq<char>) -> Seq<Seq<char>> {
    norm_frags(split_ws(text))
}

/// Number of occurrences of the term `t` in the token sequence `toks`.
pub open spec fn occ(toks: Seq<Seq<char>>, t: Seq<char>) -> nat
    decreases toks.len(),
{
    if toks.len() == 0 {
        0
    } else {
        occ(toks.skip(1), t) + if toks[0] == t {
            1nat
        } else {
            0nat
        }
    }
}

pub proof fn lemma_occ_le_len(toks: Seq<Seq<char>>, t: Seq<char>)
    ensures
        occ(toks, t) <= toks.len(),
    decreases toks.len(),
{
    if toks.len() > 0 {
        lemma_occ_le_len(toks.skip(1), t);
    }
}

pub proof fn lemma_occ_push(toks: Seq<Seq<char>>, x: Seq<char>, t: Seq<char>)
    ensures
        occ(toks.push(x), t) == occ(toks, t) + if x == t {
            1nat
        } else {
            0nat
        },
    decreases toks.len(),
{
    if toks.len() == 0 {
        assert(toks.push(x).skip(1) =~= Seq::<Seq<char>>::empty());
        assert(occ(Seq::<Seq<char>>::empty(), t) == 0);
        assert(toks.push(x)[0] == x);
        assert(occ(toks.push(x), t) == occ(toks.push(x).skip(1), t) + if toks.push(x)[0] == t {
            1nat
        } else {
            0nat
        });
    } else {
        assert(toks.push(x).skip(1) =~= toks.skip(1).push(x));
        lemma_occ_push(toks.skip(1), x, t);
        assert(toks.push(x)[0] == toks[0]);
    }
}

/// Relies on `String::from_utf8_lossy`: the decoded text is a function of
/// the bytes alone — well-formed UTF-8 decodes as written and each
/// ill-formed sequence becomes a replacement character.
#[verifier::external_body]
fn decode_chars(bytes: &Vec<u8>) -> (r: Vec<char>)
    ensures
        r@ == decoded_of(bytes@),
{
    String::from_utf8_lossy(bytes).chars().collect()
}

/// Relies on `str::to_lowercase`: the lowercased text is a function of the
/// characters alone, and an empty string stays empty.
#[verifier::external_body]
fn lower_frag(frag: &Vec<char>) -> (r: String)
    ensures
        r@ == lower_of(frag@),
        frag@.len() == 0 ==> r@.len() == 0,
{
    let s: String = frag.iter().collect();
    s.to_lowercase()
}

/// Relies on `char::is_alphanumeric`: a pure, Unicode-aware predicate on
/// the character.
#[verifier::external_body]
fn is_alphanumeric_char(c: char) -> (r: bool)
    ensures
        r == is_alnum_char(c),
{
    c.is_alphanumeric()
}

fn is_ascii_ws_char(c: char) -> (r: bool)
    ensures
        r == is_ascii_ws(c),
{
    c == ' ' || c == '\t' || c == '\n' || c == '\x0C' || c == '\r'
}

proof fn lemma_trim_front_skip(f: Seq<char>, j: int)
    requires
        0 <= j <= f.len(),
        forall|i: int| 0 <= i < j ==> !is_alnum_char(f[i]),
        j < f.len() ==> is_alnum_char(f[j]),
    ensures
        trim_front(f) == f.skip(j),
    decreases j,
{
    if j == 0 {
        assert(f.skip(0) =~= f);
    } else {
        lemma_trim_front_skip(f.skip(1), j - 1);
        assert(f.skip(1).skip(j - 1) =~= f.skip(j));
    }
}

proof fn lemma_trim_back_take(g: Seq<char>, h: int)
    requires
        0 <= h <= g.len(),
        forall|i: int| h <= i < g.len() ==> !is_alnum_char(g[i]),
        h > 0 ==> is_alnum_char(g[h - 1]),
    ensures
        trim_back(g) == g.take(h),
    decreases g.len() - h,
{
    if h == g.len() {
        if g.len() > 0 && !is_alnum_char(g[g.len() - 1]) {
            assert(is_alnum_char(g[h - 1]));
        }
        assert(g.take(h) =~= g);
    } else {
        lemma_trim_back_take(g.take(g.len() - 1), h);
        assert(g.take(g.len() - 1).take(h) =~= g.take(h));
    }
}

/// Tokenize raw document bytes: decode them lossily as text, split the text
/// on ASCII whitespace, strip non-alphanumeric characters from both ends of
/// each fragment, discard fragments that become empty, and lowercase the
/// remainder. The length of the result is the document's token count.
pub fn tokenize(bytes: &Vec<u8>) -> (toks: Vec<String>)
    ensures
        toks.deep_view() == tokens_of(decoded_of(bytes@)),
{
    let text = decode_chars(bytes);
    let n = text.len();
    let mut toks: Vec<String> = Vec::new();
    let mut pos: usize = 0;
    proof {
        assert(text@.skip(0) =~= text@);
        assert(toks.deep_view() =~= Seq::<Seq<char>>::empty());
        assert(toks.deep_view() + norm_frags(split_ws(text@)) =~= norm_frags(split_ws(text@)));
    }
    while pos < n
        invariant
            n == text@.len(),
            pos <= n,
            text@ == decoded_of(bytes@),
            toks.deep_view() + norm_frags(split_ws(text@.skip(pos as int))) == tokens_of(
                decoded_of(bytes@),
            ),
        decreases n - pos,
    {
        if is_ascii_ws_char(text[pos]) {
            proof {
                assert(text@.skip(pos as int).skip(1) =~= text@.skip(pos as int + 1));
            }
            pos = pos + 1;
        } else {
            let ghost rem = text@.skip(pos as int);
            let mut e: usize = pos + 1;
            while e < n && !is_ascii_ws_char(text[e])
                invariant
                    n == text@.len(),
                    pos < e <= n,
                    forall|i: int| pos <= i < e ==> !is_ascii_ws(text@[i]),
                    e < n ==> true,
                decreases n - e,
            {
                e = e + 1;
            }
            let ghost frag = text@.subrange(pos as int, e as int);
            proof {
                lemma_run_len_is(rem, e - pos);
                assert(rem.take(e - pos) =~= frag);
                assert(rem.skip(e - pos) =~= text@.skip(e as int));
                assert(split_ws(rem) == seq![frag] + split_ws(text@.skip(e as int)));
                assert((seq![frag] + split_ws(text@.skip(e as int)))[0] == frag);
                assert((seq![frag] + split_ws(text@.skip(e as int))).skip(1) =~= split_ws(
                    text@.skip(e as int),
                ));
            }
            // Trim non-alphanumeric characters from both ends of the fragment.
            let mut lo: usize = pos;
            while lo < e && !is_alphanumeric_char(text[lo])
                invariant
                    n == text@.len(),
                    pos <= lo <= e <= n,
                    forall|i: int| pos <= i < lo ==> !is_alnum_char(text@[i]),
                decreases e - lo,
            {
                lo = lo + 1;
            }
            let mut hi: usize = e;
            while hi > lo && !is_alphanumeric_char(text[hi - 1])
                invariant
                    n == text@.len(),
                    lo <= hi <= e <= n,
                    forall|i: int| hi <= i < e ==> !is_alnum_char(text@[i]),
                decreases hi,
            {
                hi = hi - 1;
            }
            proof {
                lemma_trim_front_skip(frag, lo - pos);
                assert(frag.skip(lo - pos) =~= text@.subrange(lo as int, e as int));
                lemma_trim_back_take(text@.subrange(lo as int, e as int), hi - lo);
                assert(text@.subrange(lo as int, e as int).take(hi - lo) =~= text@.subrange(
                    lo as int,
                    hi as int,
                ));
                assert(trim_frag(frag) == text@.subrange(lo as int, hi as int));
            }
            if lo < hi {
                let mut frag_vec: Vec<char> = Vec::new();
                let mut i: usize = lo;
                while i < hi
                    invariant
                        n == text@.len(),
                        lo <= i <= hi <= n,
                        frag_vec@ =~= text@.subrange(lo as int, i as int),
                    decreases hi - i,
                {
                    frag_vec.push(text[i]);
                    proof {
                        assert(text@.subrange(lo as int, i as int).push(text@[i as int])
                            =~= text@.subrange(lo as int, i + 1 as int));
                    }
                    i = i + 1;
                }
                let ghost toks_before = toks.deep_view();
                let tok = lower_frag(&frag_vec);
                toks.push(tok);
                proof {
                    assert(toks.deep_view() =~= toks_before.push(lower_of(trim_frag(frag))));
                    assert(toks.deep_view() + norm_frags(split_ws(text@.skip(e as int)))
                        =~= toks_before + norm_frags(split_ws(rem)));
                }
            } else {
                proof {
                    assert(trim_frag(frag).len() == 0);
                    assert(norm_frags(split_ws(rem)) == norm_frags(split_ws(text@.skip(e as int))));
                }
            }
            pos = e;
        }
    }
    proof {
        assert(text@.skip(pos as int) =~= Seq::<char>::empty());
        assert(toks.deep_view() + norm_frags(split_ws(text@.skip(pos as int))) =~= toks.deep_view());
    }
    toks
}

} // verus!
