//! The card locator: finds card markers in document text, reads each card's
//! title and body, and splices freshly minted identifier tokens into markers
//! that lack one.
//!
//! A document is modelled as its sequence of lines. A marker line starts
//! with the tag `REVIEW:`; the tag may be followed by whitespace, a
//! two-character sigil `__` and an eight-symbol identifier token, and then
//! the card's title. A card's body is every line after its marker up to the
//! next marker line, a `---` separator line, or the end of the document.

use vstd::prelude::*;

use crate::CardId;
use crate::codec::{id_token_bytes, is_token8, token8_id, is_alphabet_byte};

verus! {

/// The newline byte that separates lines.
pub open spec fn nl() -> u8 {
    10u8
}

/// The marker tag `REVIEW:` as bytes.
pub open spec fn marker_tag() -> Seq<u8> {
    seq![82u8, 69u8, 86u8, 73u8, 69u8, 87u8, 58u8]
}

/// The two-byte sigil `__` that introduces an embedded identifier token.
pub open spec fn sigil() -> Seq<u8> {
    seq![95u8, 95u8]
}

/// The separator line `---` that closes a card's body.
pub open spec fn separator() -> Seq<u8> {
    seq![45u8, 45u8, 45u8]
}

/// The position of the first newline byte, or the length when there is none.
pub open spec fn first_nl(s: Seq<u8>) -> int
    decreases s.len(),
{
    if s.len() == 0 {
        0
    } else if s[0] == nl() {
        0
    } else {
        1 + first_nl(s.drop_first())
    }
}

proof fn lemma_first_nl_bounds(s: Seq<u8>)
    ensures
        0 <= first_nl(s) <= s.len(),
        first_nl(s) < s.len() ==> s[first_nl(s)] == nl(),
        forall|j: int| 0 <= j < first_nl(s) ==> s[j] != nl(),
    decreases s.len(),
{
    if s.len() > 0 && s[0] != nl() {
        lemma_first_nl_bounds(s.drop_first());
        assert forall|j: int| 0 <= j < first_nl(s) implies s[j] != nl() by {
            if j > 0 {
                assert(s.drop_first()[j - 1] == s[j]);
                assert(j - 1 < first_nl(s.drop_first()));
            }
        }
    }
}

proof fn lemma_first_nl_is(s: Seq<u8>, k: int)
    requires
        0 <= k <= s.len(),
        forall|j: int| 0 <= j < k ==> s[j] != nl(),
        k < s.len() ==> s[k] == nl(),
    ensures
        first_nl(s) == k,
    decreases k,
{
    if s.len() > 0 && s[0] != nl() {
        lemma_first_nl_is(s.drop_first(), k - 1);
    }
}

/// A byte sequence cut at every newline. The final segment is the text
/// after the last newline, so a sequence ending in a newline contributes an
/// empty final segment.
pub open spec fn split_lines(s: Seq<u8>) -> Seq<Seq<u8>>
    decreases s.len(),
{
    let k = first_nl(s);
    if 0 <= k < s.len() {
        seq![s.subrange(0, k)] + split_lines(s.subrange(k + 1, s.len() as int))
    } else {
        seq![s]
    }
}

/// Whether the document's last byte is a newline.
pub open spec fn ends_nl(s: Seq<u8>) -> bool {
    s.len() > 0 && s.last() == nl()
}

/// The document's lines: the newline cuts, with the empty segment a trailing
/// newline leaves dropped, as a line-oriented reading of text expects.
pub open spec fn doc_lines(s: Seq<u8>) -> Seq<Seq<u8>> {
    if ends_nl(s) {
        split_lines(s).drop_last()
    } else {
        split_lines(s)
    }
}

/// Lines joined with a newline between each pair.
pub open spec fn join_lines(ls: Seq<Seq<u8>>) -> Seq<u8>
    decreases ls.len(),
{
    if ls.len() == 0 {
        Seq::empty()
    } else if ls.len() == 1 {
        ls[0]
    } else {
        ls[0] + seq![nl()] + join_lines(ls.drop_first())
    }
}

/// A document rebuilt from its lines and its trailing-newline flag.
pub open spec fn join_doc(ls: Seq<Seq<u8>>, trailing: bool) -> Seq<u8> {
    if trailing {
        join_lines(ls) + seq![nl()]
    } else {
        join_lines(ls)
    }
}

proof fn lemma_join_snoc(ls: Seq<Seq<u8>>, l: Seq<u8>)
    requires
        ls.len() > 0,
    ensures
        join_lines(ls.push(l)) == join_lines(ls) + seq![nl()] + l,
    decreases ls.len(),
{
    if ls.len() == 1 {
        assert(ls.push(l).drop_first() =~= seq![l]);
        assert(ls.push(l)[0] == ls[0]);
        assert(join_lines(seq![l]) == seq![l][0]);
        assert(seq![l][0] == l);
        assert(join_lines(ls.push(l)) == ls[0] + seq![nl()] + l);
    } else {
        assert(ls.push(l).drop_first() =~= ls.drop_first().push(l));
        lemma_join_snoc(ls.drop_first(), l);
        assert(join_lines(ls.push(l)) == ls[0] + seq![nl()] + (join_lines(ls.drop_first())
            + seq![nl()] + l));
        assert(ls[0] + seq![nl()] + (join_lines(ls.drop_first()) + seq![nl()] + l) =~= (ls[0]
            + seq![nl()] + join_lines(ls.drop_first())) + seq![nl()] + l);
    }
}

/// Joining a document's split undoes the split.
pub proof fn lemma_join_split(s: Seq<u8>)
    ensures
        join_lines(split_lines(s)) == s,
    decreases s.len(),
{
    lemma_first_nl_bounds(s);
    let k = first_nl(s);
    if k >= s.len() {
        assert(join_lines(split_lines(s)) == s);
    } else {
        let rest = s.subrange(k + 1, s.len() as int);
        lemma_join_split(rest);
        let tail = split_lines(rest);
        assert(split_lines(s).drop_first() =~= tail);
        if tail.len() == 0 {
            assert(false);
        }
        assert(join_lines(split_lines(s)) == s.subrange(0, k) + seq![nl()] + join_lines(tail));
        assert(s.subrange(0, k) + seq![nl()] + rest =~= s);
    }
}

/// A document is its lines joined back up with its trailing-newline flag.
pub proof fn lemma_join_doc_lines(s: Seq<u8>)
    ensures
        join_doc(doc_lines(s), ends_nl(s)) == s,
{
    lemma_join_split(s);
    if ends_nl(s) {
        let ls = split_lines(s);
        lemma_split_trailing_empty(s);
        assert(ls.drop_last().push(ls.last()) =~= ls);
        if ls.len() == 1 {
            assert(join_lines(ls) == ls[0]);
            assert(ls[0] == ls.last());
            assert(ls.last() =~= Seq::<u8>::empty());
            assert(doc_lines(s) =~= Seq::<Seq<u8>>::empty());
            assert(join_doc(doc_lines(s), true) =~= seq![nl()]);
            assert(s =~= seq![nl()]);
        } else {
            lemma_join_snoc(ls.drop_last(), ls.last());
            assert(join_lines(ls) == join_lines(ls.drop_last()) + seq![nl()] + ls.last());
            assert(ls.last() =~= Seq::<u8>::empty());
            assert(join_lines(ls.drop_last()) + seq![nl()] + ls.last() =~= join_lines(
                ls.drop_last()) + seq![nl()]);
        }
    }
}

/// A document ending in a newline splits into lines whose last is empty;
/// one not ending in a newline has a non-newline last byte in its last line.
proof fn lemma_split_trailing_empty(s: Seq<u8>)
    requires
        ends_nl(s),
    ensures
        split_lines(s).last() =~= Seq::<u8>::empty(),
        split_lines(s).len() >= 2,
    decreases s.len(),
{
    lemma_first_nl_bounds(s);
    let k = first_nl(s);
    if k >= s.len() {
        assert(s[s.len() - 1] == nl());
        assert(false);
    } else {
        let rest = s.subrange(k + 1, s.len() as int);
        assert(split_lines(rest).len() >= 1);
        if rest.len() == 0 {
            assert(k == s.len() - 1);
            assert(rest =~= Seq::<u8>::empty());
            assert(split_lines(rest) == seq![rest]);
            assert(split_lines(s).last() =~= Seq::<u8>::empty());
        } else {
            assert(ends_nl(rest));
            lemma_split_trailing_empty(rest);
            assert(split_lines(s).last() == split_lines(rest).last());
        }
    }
}

/// Cuts a document into its lines, and reports whether it ended with a
/// newline, so that it can be reassembled byte for byte.
pub fn split_doc(data: &[u8]) -> (r: (Vec<Vec<u8>>, bool))
    ensures
        r.0@.map_values(|l: Vec<u8>| l@) == doc_lines(data@),
        r.1 == ends_nl(data@),
{
    let n = data.len();
    let mut out: Vec<Vec<u8>> = Vec::new();
    let mut cur: Vec<u8> = Vec::new();
    let mut line_start: usize = 0;
    let mut pos: usize = 0;
    proof {
        assert(data@.subrange(0, n as int) =~= data@);
        assert(out@.map_values(|l: Vec<u8>| l@) =~= Seq::<Seq<u8>>::empty());
    }
    while pos < n
        invariant
            line_start <= pos <= n,
            n == data@.len(),
            cur@ == data@.subrange(line_start as int, pos as int),
            forall|j: int| line_start <= j < pos ==> data@[j] != nl(),
            line_start > 0 ==> data@[line_start - 1] == nl(),
            split_lines(data@) == out@.map_values(|l: Vec<u8>| l@) + split_lines(
                data@.subrange(line_start as int, n as int)),
        decreases n - pos,
    {
        let b = data[pos];
        if b == 10 {
            proof {
                let tail = data@.subrange(line_start as int, n as int);
                lemma_first_nl_is(tail, pos - line_start);
                assert(tail.subrange(0, pos - line_start) =~= data@.subrange(
                    line_start as int, pos as int));
                assert(tail.subrange(pos - line_start + 1, tail.len() as int) =~= data@.subrange(
                    pos + 1, n as int));
                assert(split_lines(tail) == seq![cur@] + split_lines(data@.subrange(
                    pos + 1, n as int)));
            }
            let ghost old_model = out@.map_values(|l: Vec<u8>| l@);
            let ghost cur_model = cur@;
            out.push(cur);
            cur = Vec::new();
            proof {
                assert(out@.map_values(|l: Vec<u8>| l@) =~= old_model.push(cur_model));
                assert(old_model + (seq![cur_model] + split_lines(data@.subrange(pos + 1, n as int)))
                    =~= old_model.push(cur_model) + split_lines(data@.subrange(pos + 1, n as int)));
                assert(cur@ =~= data@.subrange(pos + 1, pos + 1));
            }
            line_start = pos + 1;
        } else {
            cur.push(b);
            proof {
                assert(cur@ =~= data@.subrange(line_start as int, pos + 1));
            }
        }
        pos += 1;
    }
    let ghost tail = data@.subrange(line_start as int, n as int);
    proof {
        lemma_first_nl_is(tail, tail.len() as int);
        assert(split_lines(tail) == seq![tail]);
        assert(cur@ == tail);
    }
    let trailing = line_start == n && n > 0;
    proof {
        if trailing {
            assert(ends_nl(data@));
            assert(tail =~= Seq::<u8>::empty());
            assert(split_lines(data@) == out@.map_values(|l: Vec<u8>| l@) + seq![tail]);
            assert((out@.map_values(|l: Vec<u8>| l@) + seq![tail]).drop_last() =~= out@.map_values(
                |l: Vec<u8>| l@));
        } else {
            if n > 0 {
                assert(line_start < n);
                assert(data@[n - 1] != nl());
            }
            assert(!ends_nl(data@));
        }
    }
    if !trailing {
        let ghost old_model = out@.map_values(|l: Vec<u8>| l@);
        out.push(cur);
        proof {
            assert(out@.map_values(|l: Vec<u8>| l@) =~= old_model.push(tail));
            assert(old_model + seq![tail] =~= old_model.push(tail));
            assert(out@.map_values(|l: Vec<u8>| l@) == doc_lines(data@));
        }
    }
    (out, trailing)
}

/// Whether a byte is line-leading whitespace: a space or a tab.
pub open spec fn is_ws(b: u8) -> bool {
    b == 32 || b == 9
}

/// How many whitespace bytes a sequence starts with.
pub open spec fn ws_count(s: Seq<u8>) -> int
    decreases s.len(),
{
    if s.len() > 0 && is_ws(s[0]) {
        1 + ws_count(s.drop_first())
    } else {
        0
    }
}

proof fn lemma_ws_count_bounds(s: Seq<u8>)
    ensures
        0 <= ws_count(s) <= s.len(),
    decreases s.len(),
{
    if s.len() > 0 && is_ws(s[0]) {
        lemma_ws_count_bounds(s.drop_first());
    }
}

proof fn lemma_ws_count_is(s: Seq<u8>, k: int)
    requires
        0 <= k <= s.len(),
        forall|j: int| 0 <= j < k ==> is_ws(#[trigger] s[j]),
        k < s.len() ==> !is_ws(s[k]),
    ensures
        ws_count(s) == k,
    decreases k,
{
    if s.len() > 0 && is_ws(s[0]) {
        assert(k > 0);
        lemma_ws_count_is(s.drop_first(), k - 1);
    }
}

/// The sequence with its leading whitespace dropped.
pub open spec fn after_ws(s: Seq<u8>) -> Seq<u8> {
    s.subrange(ws_count(s), s.len() as int)
}

/// Whether a line opens a card: it starts with the tag `REVIEW:`.
pub open spec fn is_marker_line(l: Seq<u8>) -> bool {
    l.len() >= 7 && l.subrange(0, 7) == marker_tag()
}

/// Whether a line is the `---` separator that closes a card's body.
pub open spec fn is_separator_line(l: Seq<u8>) -> bool {
    l == separator()
}

/// The part of a marker line after the tag.
pub open spec fn marker_rest(l: Seq<u8>) -> Seq<u8>
    recommends
        is_marker_line(l),
{
    l.subrange(7, l.len() as int)
}

/// Whether text starts with the sigil and a well-formed identifier token.
pub open spec fn has_sigil_token(r: Seq<u8>) -> bool {
    r.len() >= 10 && r[0] == 95 && r[1] == 95 && is_token8(r.subrange(2, 10))
}

/// The embedded identifier token of a marker line, when the tag is followed
/// (after optional whitespace) by the sigil and eight alphabet symbols.
/// A malformed embedding counts the same as an absent one.
pub open spec fn marker_token(l: Seq<u8>) -> Option<Seq<u8>>
    recommends
        is_marker_line(l),
{
    let r = after_ws(marker_rest(l));
    if has_sigil_token(r) {
        Some(r.subrange(2, 10))
    } else {
        None
    }
}

/// A marker line's title: what follows the token (when one is embedded) or
/// the tag, with leading whitespace dropped.
pub open spec fn marker_title(l: Seq<u8>) -> Seq<u8>
    recommends
        is_marker_line(l),
{
    let r = after_ws(marker_rest(l));
    if has_sigil_token(r) {
        after_ws(r.subrange(10, r.len() as int))
    } else {
        r
    }
}

/// Whether a line is a marker still waiting for an identifier.
pub open spec fn needs_id(l: Seq<u8>) -> bool {
    is_marker_line(l) && marker_token(l) is None
}

/// A marker line with a fresh token spliced in right after the tag.
pub open spec fn patched_line(l: Seq<u8>, tok: Seq<u8>) -> Seq<u8>
    recommends
        is_marker_line(l),
        tok.len() == 8,
{
    marker_tag() + sigil() + tok + marker_rest(l)
}

fn line_is_marker(l: &Vec<u8>) -> (b: bool)
    ensures
        b == is_marker_line(l@),
{
    if l.len() < 7 {
        return false;
    }
    let b = l[0] == 82 && l[1] == 69 && l[2] == 86 && l[3] == 73 && l[4] == 69 && l[5] == 87
        && l[6] == 58;
    proof {
        if b {
            assert(l@.subrange(0, 7) =~= marker_tag());
        } else {
            assert(l@.subrange(0, 7) != marker_tag()) by {
                assert(forall|j: int| 0 <= j < 7 ==> l@.subrange(0, 7)[j] == l@[j]);
            }
        }
    }
    b
}

fn line_is_separator(l: &Vec<u8>) -> (b: bool)
    ensures
        b == is_separator_line(l@),
{
    if l.len() != 3 {
        assert(l@ != separator());
        return false;
    }
    let b = l[0] == 45 && l[1] == 45 && l[2] == 45;
    proof {
        if b {
            assert(l@ =~= separator());
        }
    }
    b
}

/// Skips whitespace from `from`, returning the first non-whitespace index.
fn skip_ws(l: &Vec<u8>, from: usize) -> (r: usize)
    requires
        from <= l@.len(),
    ensures
        from <= r <= l@.len(),
        ws_count(l@.subrange(from as int, l@.len() as int)) == r - from,
        forall|j: int| from <= j < r ==> is_ws(#[trigger] l@[j]),
        r < l@.len() ==> !is_ws(l@[r as int]),
{
    let n = l.len();
    let mut p = from;
    while p < n && (l[p] == 32 || l[p] == 9)
        invariant
            from <= p <= n,
            n == l@.len(),
            forall|j: int| from <= j < p ==> is_ws(#[trigger] l@[j]),
        decreases n - p,
    {
        p += 1;
    }
    proof {
        let s = l@.subrange(from as int, n as int);
        lemma_ws_count_is(s, p - from);
    }
    p
}

/// Reads a marker line's embedded identifier (when present and well formed)
/// and its title.
fn marker_parts(l: &Vec<u8>) -> (r: (Option<CardId>, Vec<u8>))
    requires
        is_marker_line(l@),
    ensures
        r.0 is Some <==> marker_token(l@) is Some,
        marker_token(l@) is Some ==> r.0->Some_0@ == token8_id(marker_token(l@)->Some_0),
        r.1@ == marker_title(l@),
{
    let n = l.len();
    let p = skip_ws(l, 7);
    let ghost rest = marker_rest(l@);
    let ghost r2 = after_ws(rest);
    proof {
        assert(rest.subrange(0, p - 7) =~= l@.subrange(7, p as int));
        assert forall|j: int| 0 <= j < p - 7 implies is_ws(#[trigger] rest[j]) by {
            assert(rest[j] == l@[j + 7]);
        }
        if p - 7 < rest.len() {
            assert(rest[p - 7] == l@[p as int]);
        }
        lemma_ws_count_is(rest, p - 7);
        assert(r2 =~= l@.subrange(p as int, n as int));
    }
    if n - p >= 10 && l[p] == 95 && l[p + 1] == 95 {
        let tok = &l[p + 2..p + 10];
        proof {
            assert(tok@ =~= r2.subrange(2, 10));
        }
        match crate::codec::parse_id_token(tok) {
            Some(id) => {
                proof {
                    assert(has_sigil_token(r2));
                }
                let q = skip_ws(l, p + 10);
                let title = vstd::slice::slice_to_vec(&l[q..n]);
                proof {
                    let tail = r2.subrange(10, r2.len() as int);
                    assert(tail =~= l@.subrange(p + 10, n as int));
                    assert(tail.subrange(0, q - (p + 10)) =~= l@.subrange(p + 10, q as int));
                    assert forall|j: int| 0 <= j < q - (p + 10) implies is_ws(
                        #[trigger] tail[j]) by {
                        assert(tail[j] == l@[j + p + 10]);
                    }
                    if q - (p + 10) < tail.len() {
                        assert(tail[q - (p + 10)] == l@[q as int]);
                    }
                    lemma_ws_count_is(tail, q - (p + 10));
                    assert(after_ws(tail) =~= l@.subrange(q as int, n as int));
                    assert(title@ == marker_title(l@));
                }
                (Some(id), title)
            },
            None => {
                proof {
                    assert(!has_sigil_token(r2));
                }
                let title = vstd::slice::slice_to_vec(&l[p..n]);
                proof {
                    assert(title@ =~= r2);
                }
                (None, title)
            },
        }
    } else {
        proof {
            if r2.len() >= 10 {
                assert(r2[0] == l@[p as int]);
                assert(r2[1] == l@[p + 1]);
            }
            assert(!has_sigil_token(r2));
        }
        let title = vstd::slice::slice_to_vec(&l[p..n]);
        proof {
            assert(title@ =~= r2);
        }
        (None, title)
    }
}

/// Builds the patched form of a marker line, with the token spliced in.
fn build_patched_line(l: &Vec<u8>, tok: &Vec<u8>) -> (r: Vec<u8>)
    requires
        is_marker_line(l@),
        tok@.len() == 8,
    ensures
        r@ == patched_line(l@, tok@),
{
    let n = l.len();
    let mut r: Vec<u8> = Vec::new();
    r.push(82);
    r.push(69);
    r.push(86);
    r.push(73);
    r.push(69);
    r.push(87);
    r.push(58);
    r.push(95);
    r.push(95);
    r.extend_from_slice(tok.as_slice());
    r.extend_from_slice(&l[7..n]);
    proof {
        assert(r@ =~= patched_line(l@, tok@));
    }
    r
}

/// The mathematical shape of a located card: its identifier bytes, its
/// title and its body text.
pub ghost struct SpecCard {
    pub id: Seq<u8>,
    pub front: Seq<u8>,
    pub back: Seq<u8>,
}

/// A card read out of a document: its identifier, the marker line's title
/// (sigil and token stripped), and the body lines that follow.
pub struct CardBody {
    pub id: CardId,
    pub front: Vec<u8>,
    pub back: Vec<u8>,
}

impl View for CardBody {
    type V = SpecCard;

    open spec fn view(&self) -> SpecCard {
        SpecCard { id: self.id@, front: self.front@, back: self.back@ }
    }
}

/// Where the body starting at line `j` ends: the first marker or separator
/// line at or after `j`, or the end of the document.
pub open spec fn body_end(ls: Seq<Seq<u8>>, j: int) -> int
    decreases ls.len() - j,
{
    if j >= ls.len() {
        ls.len() as int
    } else if is_marker_line(ls[j]) || is_separator_line(ls[j]) {
        j
    } else {
        body_end(ls, j + 1)
    }
}

proof fn lemma_body_end_is(ls: Seq<Seq<u8>>, a: int, k: int)
    requires
        0 <= a <= k <= ls.len(),
        forall|m: int| a <= m < k ==> !is_marker_line(#[trigger] ls[m]) && !is_separator_line(
            ls[m]),
        k < ls.len() ==> is_marker_line(ls[k]) || is_separator_line(ls[k]),
    ensures
        body_end(ls, a) == k,
    decreases k - a,
{
    if a < k {
        lemma_body_end_is(ls, a + 1, k);
    }
}

/// The text of the body lines in `[a, b)`, each followed by a newline.
pub open spec fn join_body(ls: Seq<Seq<u8>>, a: int, b: int) -> Seq<u8>
    decreases b - a,
{
    if a >= b {
        Seq::empty()
    } else {
        ls[a] + seq![nl()] + join_body(ls, a + 1, b)
    }
}

proof fn lemma_join_body_snoc(ls: Seq<Seq<u8>>, a: int, b: int)
    requires
        a <= b,
    ensures
        join_body(ls, a, b + 1) == join_body(ls, a, b) + ls[b] + seq![nl()],
    decreases b - a,
{
    if a >= b {
        assert(join_body(ls, a + 1, b + 1) == Seq::<u8>::empty());
        assert(join_body(ls, a, b) == Seq::<u8>::empty());
        assert(join_body(ls, a, b + 1) == ls[a] + seq![nl()] + join_body(ls, a + 1, b + 1));
        assert(ls[a] + seq![nl()] + Seq::<u8>::empty() =~= Seq::<u8>::empty() + ls[a] + seq![
            nl(),
        ]);
    } else {
        lemma_join_body_snoc(ls, a + 1, b);
        assert(ls[a] + seq![nl()] + (join_body(ls, a + 1, b) + ls[b] + seq![nl()]) =~= (ls[a]
            + seq![nl()] + join_body(ls, a + 1, b)) + ls[b] + seq![nl()]);
    }
}

/// The cards of a document's lines, reading from line `i` on: every marker
/// line with a well-formed embedded token yields one card, in order.
pub open spec fn spec_cards(ls: Seq<Seq<u8>>, i: int) -> Seq<SpecCard>
    decreases ls.len() - i,
{
    if i >= ls.len() {
        Seq::empty()
    } else if is_marker_line(ls[i]) && marker_token(ls[i]) is Some {
        seq![
            SpecCard {
                id: token8_id(marker_token(ls[i])->Some_0),
                front: marker_title(ls[i]),
                back: join_body(ls, i + 1, body_end(ls, i + 1)),
            },
        ] + spec_cards(ls, i + 1)
    } else {
        spec_cards(ls, i + 1)
    }
}

/// Reads every identified card out of a document: each marker line carrying
/// a well-formed token yields a card with that identifier, the marker's
/// title, and the following lines up to the next marker, separator or the
/// document's end as its body. Markers still lacking an identifier yield no
/// card.
pub fn load_card_bodies(data: &[u8]) -> (cards: Vec<CardBody>)
    ensures
        cards@.map_values(|c: CardBody| c@) == spec_cards(doc_lines(data@), 0),
{
    let (lines, _trailing) = split_doc(data);
    let ghost ls = lines@.map_values(|l: Vec<u8>| l@);
    let n = lines.len();
    let mut cards: Vec<CardBody> = Vec::new();
    let mut i: usize = 0;
    proof {
        assert(cards@.map_values(|c: CardBody| c@) =~= Seq::<SpecCard>::empty());
    }
    while i < n
        invariant
            i <= n,
            n == ls.len(),
            ls == lines@.map_values(|l: Vec<u8>| l@),
            spec_cards(ls, 0) == cards@.map_values(|c: CardBody| c@) + spec_cards(ls, i as int),
        decreases n - i,
    {
        let line = &lines[i];
        if line_is_marker(line) {
            let (idopt, title) = marker_parts(line);
            match idopt {
                Some(id) => {
                    let mut back: Vec<u8> = Vec::new();
                    let mut j = i + 1;
                    loop
                        invariant_except_break
                            i + 1 <= j <= n,
                            n == ls.len(),
                            ls == lines@.map_values(|l: Vec<u8>| l@),
                            back@ == join_body(ls, i + 1, j as int),
                            forall|m: int| i + 1 <= m < j ==> !is_marker_line(#[trigger] ls[m])
                                && !is_separator_line(ls[m]),
                        ensures
                            i + 1 <= j <= n,
                            back@ == join_body(ls, i + 1, j as int),
                            body_end(ls, i + 1) == j,
                        decreases n - j,
                    {
                        if j >= n {
                            proof {
                                lemma_body_end_is(ls, i + 1, j as int);
                            }
                            break;
                        }
                        let lj = &lines[j];
                        if line_is_marker(lj) || line_is_separator(lj) {
                            proof {
                                lemma_body_end_is(ls, i + 1, j as int);
                            }
                            break;
                        }
                        let ghost old_back = back@;
                        back.extend_from_slice(lj.as_slice());
                        back.push(10);
                        proof {
                            lemma_join_body_snoc(ls, i + 1, j as int);
                            assert(back@ =~= old_back + ls[j as int] + seq![nl()]);
                        }
                        j += 1;
                    }
                    let ghost old_model = cards@.map_values(|c: CardBody| c@);
                    let card = CardBody { id, front: title, back };
                    proof {
                        assert(card@ == spec_cards(ls, i as int)[0]);
                    }
                    cards.push(card);
                    proof {
                        assert(cards@.map_values(|c: CardBody| c@) =~= old_model.push(card@));
                        assert(old_model + spec_cards(ls, i as int) =~= old_model.push(card@)
                            + spec_cards(ls, i + 1));
                    }
                },
                None => {
                    proof {
                        assert(spec_cards(ls, i as int) == spec_cards(ls, i + 1));
                    }
                },
            }
        } else {
            proof {
                assert(spec_cards(ls, i as int) == spec_cards(ls, i + 1));
            }
        }
        i += 1;
    }
    cards
}

/// How many of the lines are markers still lacking an identifier.
pub open spec fn missing_count(ls: Seq<Seq<u8>>) -> nat
    decreases ls.len(),
{
    if ls.len() == 0 {
        0
    } else {
        missing_count(ls.drop_last()) + if needs_id(ls.last()) {
            1nat
        } else {
            0nat
        }
    }
}

proof fn lemma_missing_snoc(ls: Seq<Seq<u8>>, i: int)
    requires
        0 <= i < ls.len(),
    ensures
        missing_count(ls.subrange(0, i + 1)) == missing_count(ls.subrange(0, i)) + if needs_id(
            ls[i],
        ) {
            1nat
        } else {
            0nat
        },
{
    let pre = ls.subrange(0, i + 1);
    assert(pre.drop_last() =~= ls.subrange(0, i));
    assert(pre.last() == ls[i]);
}

proof fn lemma_missing_mono(ls: Seq<Seq<u8>>, a: int, b: int)
    requires
        0 <= a <= b <= ls.len(),
    ensures
        missing_count(ls.subrange(0, a)) <= missing_count(ls.subrange(0, b)),
    decreases b - a,
{
    if a < b {
        lemma_missing_snoc(ls, b - 1);
        lemma_missing_mono(ls, a, b - 1);
    }
}

/// The document's lines after the patch pass: the `k`-th marker lacking an
/// identifier gets the `k`-th fresh token spliced in; every other line is
/// untouched.
pub open spec fn patch_lines(ls: Seq<Seq<u8>>, toks: Seq<Seq<u8>>) -> Seq<Seq<u8>> {
    Seq::new(
        ls.len(),
        |i: int|
            if needs_id(ls[i]) {
                patched_line(ls[i], toks[missing_count(ls.subrange(0, i)) as int])
            } else {
                ls[i]
            },
    )
}

/// Mints a fresh card identifier.
///
/// Relies on `rand::random`: six bytes from the thread-local random number
/// generator. Nothing is assumed about their values.
#[verifier::external_body]
fn random_card_id() -> CardId {
    CardId(rand::random())
}

/// Patches the document in place: every marker line still lacking an
/// identifier has a freshly minted one spliced in right after its tag, and
/// the minted identifiers are returned in document order. Lines already
/// carrying a token, and all other text, are left byte for byte as they
/// were.
pub fn initialize_card_bodies(data: &mut Vec<u8>) -> (ids: Vec<CardId>)
    ensures
        ids@.len() == missing_count(doc_lines(old(data)@)),
        final(data)@ == join_doc(
            patch_lines(
                doc_lines(old(data)@),
                ids@.map_values(|id: CardId| id_token_bytes(id@)),
            ),
            ends_nl(old(data)@),
        ),
{
    let (lines, trailing) = split_doc(data.as_slice());
    let ghost ls = doc_lines(data@);
    let n = lines.len();
    let mut out: Vec<Vec<u8>> = Vec::new();
    let mut ids: Vec<CardId> = Vec::new();
    let mut i: usize = 0;
    proof {
        assert(ls.subrange(0, 0) =~= Seq::<Seq<u8>>::empty());
    }
    while i < n
        invariant
            i <= n,
            n == ls.len(),
            ls == lines@.map_values(|l: Vec<u8>| l@),
            ids@.len() == missing_count(ls.subrange(0, i as int)),
            out@.len() == i,
            forall|k: int|
                0 <= k < i ==> out@.map_values(|l: Vec<u8>| l@)[k] == if needs_id(ls[k]) {
                    patched_line(
                        ls[k],
                        ids@.map_values(|id: CardId| id_token_bytes(id@))[missing_count(
                            ls.subrange(0, k),
                        ) as int],
                    )
                } else {
                    ls[k]
                },
        decreases n - i,
    {
        let line = &lines[i];
        let ghost old_ids = ids@;
        let ghost old_out_model = out@.map_values(|l: Vec<u8>| l@);
        if line_is_marker(line) {
            let (idopt, _title) = marker_parts(line);
            match idopt {
                None => {
                    let id = random_card_id();
                    let tok = crate::codec::id_token(&id);
                    let patched = build_patched_line(line, &tok);
                    ids.push(id);
                    out.push(patched);
                    proof {
                        assert(needs_id(ls[i as int]));
                        assert(ids@.map_values(|id: CardId| id_token_bytes(id@)) =~= old_ids
                            .map_values(|id: CardId| id_token_bytes(id@)).push(
                            id_token_bytes(id@),
                        ));
                    }
                },
                Some(_) => {
                    let copy = vstd::slice::slice_to_vec(line.as_slice());
                    out.push(copy);
                    proof {
                        assert(!needs_id(ls[i as int]));
                        assert(ids@.map_values(|id: CardId| id_token_bytes(id@)) =~= old_ids
                            .map_values(|id: CardId| id_token_bytes(id@)));
                    }
                },
            }
        } else {
            let copy = vstd::slice::slice_to_vec(line.as_slice());
            out.push(copy);
            proof {
                assert(!is_marker_line(ls[i as int]));
                assert(!needs_id(ls[i as int]));
            }
        }
        proof {
            lemma_missing_snoc(ls, i as int);
            assert(out@.map_values(|l: Vec<u8>| l@) =~= old_out_model.push(
                out@.last()@,
            ));
            assert forall|k: int| 0 <= k < i + 1 implies out@.map_values(|l: Vec<u8>| l@)[k]
                == if needs_id(ls[k]) {
                patched_line(
                    ls[k],
                    ids@.map_values(|id: CardId| id_token_bytes(id@))[missing_count(
                        ls.subrange(0, k),
                    ) as int],
                )
            } else {
                ls[k]
            } by {
                if k < i {
                    if needs_id(ls[k]) {
                        lemma_missing_mono(ls, k + 1, i as int);
                        lemma_missing_snoc(ls, k);
                    }
                }
            }
        }
        i += 1;
    }
    proof {
        let toks = ids@.map_values(|id: CardId| id_token_bytes(id@));
        assert(ls.subrange(0, n as int) =~= ls);
        assert forall|k: int| 0 <= k < n && needs_id(ls[k]) implies missing_count(
            ls.subrange(0, k),
        ) < toks.len() by {
            lemma_missing_snoc(ls, k);
            lemma_missing_mono(ls, k + 1, n as int);
        }
        assert(out@.map_values(|l: Vec<u8>| l@) =~= patch_lines(ls, toks));
    }
    let newdoc = join_doc_bytes(&out, trailing);
    *data = newdoc;
    ids
}

/// Splicing a token into a marker line that lacked one yields a marker line
/// carrying exactly that token, with the title unchanged.
pub proof fn lemma_line_round_trip(l: Seq<u8>, tok: Seq<u8>)
    requires
        is_marker_line(l),
        is_token8(tok),
    ensures
        is_marker_line(patched_line(l, tok)),
        !is_separator_line(patched_line(l, tok)),
        marker_token(patched_line(l, tok)) == Some(tok),
        marker_token(l) is None ==> marker_title(patched_line(l, tok)) == marker_title(l),
{
    let p = patched_line(l, tok);
    let rest = marker_rest(l);
    assert(p.len() == 17 + rest.len());
    assert(p.subrange(0, 7) =~= marker_tag());
    assert(separator().len() == 3);
    assert(!is_separator_line(p));
    let r = marker_rest(p);
    assert(r =~= sigil() + tok + rest);
    assert(r[0] == 95u8 && !is_ws(r[0]));
    assert(ws_count(r) == 0);
    assert(after_ws(r) =~= r);
    assert(r.subrange(2, 10) =~= tok);
    assert(has_sigil_token(after_ws(r)));
    assert(marker_token(p) == Some(tok));
    let tail = r.subrange(10, r.len() as int);
    assert(tail =~= rest);
    assert(marker_title(p) == after_ws(rest));
}

/// After the patch pass each line keeps its classification: markers stay
/// markers with their titles and bodies intact, every marker carries a
/// token, and untouched lines are equal to what they were.
pub proof fn lemma_patch_line_facts(ls: Seq<Seq<u8>>, toks: Seq<Seq<u8>>, i: int)
    requires
        missing_count(ls) <= toks.len(),
        forall|k: int| 0 <= k < toks.len() ==> is_token8(#[trigger] toks[k]),
        0 <= i < ls.len(),
    ensures
        is_marker_line(patch_lines(ls, toks)[i]) == is_marker_line(ls[i]),
        is_separator_line(patch_lines(ls, toks)[i]) == is_separator_line(ls[i]),
        !needs_id(ls[i]) ==> patch_lines(ls, toks)[i] == ls[i],
        needs_id(ls[i]) ==> marker_token(patch_lines(ls, toks)[i]) == Some(
            toks[missing_count(ls.subrange(0, i)) as int],
        ) && marker_title(patch_lines(ls, toks)[i]) == marker_title(ls[i]),
        !needs_id(patch_lines(ls, toks)[i]),
{
    let ps = patch_lines(ls, toks);
    if needs_id(ls[i]) {
        lemma_missing_snoc(ls, i);
        lemma_missing_mono(ls, i + 1, ls.len() as int);
        assert(ls.subrange(0, ls.len() as int) =~= ls);
        let idx = missing_count(ls.subrange(0, i)) as int;
        assert(0 <= idx < toks.len());
        lemma_line_round_trip(ls[i], toks[idx]);
    } else {
        if is_marker_line(ls[i]) {
            assert(separator().len() == 3);
            assert(!is_separator_line(ls[i]));
        }
    }
}

proof fn lemma_patch_body_end(ls: Seq<Seq<u8>>, toks: Seq<Seq<u8>>, j: int)
    requires
        missing_count(ls) <= toks.len(),
        forall|k: int| 0 <= k < toks.len() ==> is_token8(#[trigger] toks[k]),
        0 <= j <= ls.len(),
    ensures
        body_end(patch_lines(ls, toks), j) == body_end(ls, j),
    decreases ls.len() - j,
{
    if j < ls.len() {
        lemma_patch_line_facts(ls, toks, j);
        if !(is_marker_line(ls[j]) || is_separator_line(ls[j])) {
            lemma_patch_body_end(ls, toks, j + 1);
        }
    }
}

proof fn lemma_join_body_eq(ps: Seq<Seq<u8>>, ls: Seq<Seq<u8>>, a: int, b: int)
    requires
        forall|k: int| a <= k < b ==> #[trigger] ps[k] == ls[k],
    ensures
        join_body(ps, a, b) == join_body(ls, a, b),
    decreases b - a,
{
    if a < b {
        lemma_join_body_eq(ps, ls, a + 1, b);
    }
}

proof fn lemma_body_range_facts(ls: Seq<Seq<u8>>, j: int)
    requires
        0 <= j <= ls.len(),
    ensures
        j <= body_end(ls, j) <= ls.len(),
        forall|m: int| j <= m < body_end(ls, j) ==> !is_marker_line(#[trigger] ls[m])
            && !is_separator_line(ls[m]),
    decreases ls.len() - j,
{
    if j < ls.len() && !(is_marker_line(ls[j]) || is_separator_line(ls[j])) {
        lemma_body_range_facts(ls, j + 1);
    }
}

/// The cards a scan must find after the patch pass, phrased over the
/// document's original lines: every marker yields a card whose identifier
/// comes from its own token when it had one and from the fresh tokens
/// otherwise, with the original title and body.
pub open spec fn expected_cards(ls: Seq<Seq<u8>>, toks: Seq<Seq<u8>>, i: int) -> Seq<SpecCard>
    decreases ls.len() - i,
{
    if i >= ls.len() {
        Seq::empty()
    } else if is_marker_line(ls[i]) {
        let tok = if marker_token(ls[i]) is Some {
            marker_token(ls[i])->Some_0
        } else {
            toks[missing_count(ls.subrange(0, i)) as int]
        };
        seq![
            SpecCard {
                id: token8_id(tok),
                front: marker_title(ls[i]),
                back: join_body(ls, i + 1, body_end(ls, i + 1)),
            },
        ] + expected_cards(ls, toks, i + 1)
    } else {
        expected_cards(ls, toks, i + 1)
    }
}

/// How many marker lines stand at or after line `i`.
pub open spec fn marker_count(ls: Seq<Seq<u8>>, i: int) -> nat
    decreases ls.len() - i,
{
    if i >= ls.len() {
        0
    } else {
        (if is_marker_line(ls[i]) {
            1nat
        } else {
            0nat
        }) + marker_count(ls, i + 1)
    }
}

/// After the patch pass, scanning finds exactly one card per marker.
pub proof fn lemma_one_card_per_marker(ls: Seq<Seq<u8>>, toks: Seq<Seq<u8>>, i: int)
    requires
        0 <= i <= ls.len(),
    ensures
        expected_cards(ls, toks, i).len() == marker_count(ls, i),
    decreases ls.len() - i,
{
    if i < ls.len() {
        lemma_one_card_per_marker(ls, toks, i + 1);
    }
}

proof fn lemma_document_round_trip_from(ls: Seq<Seq<u8>>, toks: Seq<Seq<u8>>, i: int)
    requires
        missing_count(ls) <= toks.len(),
        forall|k: int| 0 <= k < toks.len() ==> is_token8(#[trigger] toks[k]),
        0 <= i <= ls.len(),
    ensures
        spec_cards(patch_lines(ls, toks), i) == expected_cards(ls, toks, i),
    decreases ls.len() - i,
{
    let ps = patch_lines(ls, toks);
    if i < ls.len() {
        lemma_patch_line_facts(ls, toks, i);
        lemma_document_round_trip_from(ls, toks, i + 1);
        if is_marker_line(ls[i]) {
            lemma_patch_body_end(ls, toks, i + 1);
            lemma_body_range_facts(ls, i + 1);
            assert forall|m: int| i + 1 <= m < body_end(ls, i + 1) implies #[trigger] ps[m]
                == ls[m] by {
                lemma_patch_line_facts(ls, toks, m);
            }
            lemma_join_body_eq(ps, ls, i + 1, body_end(ls, i + 1));
            assert(marker_token(ps[i]) is Some);
            if marker_token(ls[i]) is Some {
                assert(ps[i] == ls[i]);
            }
            assert(spec_cards(ps, i)[0] == expected_cards(ls, toks, i)[0]);
            assert(spec_cards(ps, i) =~= expected_cards(ls, toks, i));
        } else {
            assert(spec_cards(ps, i) == spec_cards(ps, i + 1));
        }
    }
}

/// Marker round trip over a whole document: patching the missing
/// identifiers in and scanning the patched lines finds exactly one card per
/// marker, carrying its old token's identifier where one was embedded and
/// the freshly minted one where none was, with every title and body exactly
/// as it stood in the original document.
pub proof fn lemma_document_round_trip(ls: Seq<Seq<u8>>, toks: Seq<Seq<u8>>)
    requires
        toks.len() == missing_count(ls),
        forall|k: int| 0 <= k < toks.len() ==> is_token8(#[trigger] toks[k]),
    ensures
        spec_cards(patch_lines(ls, toks), 0) == expected_cards(ls, toks, 0),
{
    lemma_document_round_trip_from(ls, toks, 0);
}

/// After the patch pass no marker lacks an identifier, so a second pass
/// leaves the document unchanged.
pub proof fn lemma_patch_idempotent(ls: Seq<Seq<u8>>, toks: Seq<Seq<u8>>, more: Seq<Seq<u8>>)
    requires
        toks.len() == missing_count(ls),
        forall|k: int| 0 <= k < toks.len() ==> is_token8(#[trigger] toks[k]),
    ensures
        missing_count(patch_lines(ls, toks)) == 0,
        patch_lines(patch_lines(ls, toks), more) == patch_lines(ls, toks),
{
    let ps = patch_lines(ls, toks);
    assert forall|i: int| 0 <= i < ps.len() implies !needs_id(#[trigger] ps[i]) by {
        lemma_patch_line_facts(ls, toks, i);
    }
    lemma_no_missing(ps);
    assert(patch_lines(ps, more) =~= ps);
}

proof fn lemma_no_missing(ls: Seq<Seq<u8>>)
    requires
        forall|i: int| 0 <= i < ls.len() ==> !needs_id(#[trigger] ls[i]),
    ensures
        missing_count(ls) == 0,
    decreases ls.len(),
{
    if ls.len() > 0 {
        lemma_no_missing(ls.drop_last());
    }
}

proof fn lemma_split_lines_no_nl(s: Seq<u8>)
    ensures
        forall|i: int, j: int|
            0 <= i < split_lines(s).len() && 0 <= j < split_lines(s)[i].len()
                ==> #[trigger] split_lines(s)[i][j] != nl(),
    decreases s.len(),
{
    lemma_first_nl_bounds(s);
    let k = first_nl(s);
    if 0 <= k < s.len() {
        lemma_split_lines_no_nl(s.subrange(k + 1, s.len() as int));
        assert forall|i: int, j: int|
            0 <= i < split_lines(s).len() && 0 <= j < split_lines(s)[i].len() implies #[trigger]
        split_lines(s)[i][j] != nl() by {
            if i == 0 {
                assert(split_lines(s)[0] == s.subrange(0, k));
                assert(s.subrange(0, k)[j] == s[j]);
            } else {
                assert(split_lines(s)[i] == split_lines(s.subrange(k + 1, s.len() as int))[i - 1]);
            }
        }
    } else {
        assert(k == s.len());
        assert forall|i: int, j: int|
            0 <= i < split_lines(s).len() && 0 <= j < split_lines(s)[i].len() implies #[trigger]
        split_lines(s)[i][j] != nl() by {
            assert(split_lines(s)[i] == s);
        }
    }
}

/// No line of a document's line model holds a newline byte.
pub proof fn lemma_doc_lines_no_nl(s: Seq<u8>)
    ensures
        forall|i: int, j: int|
            0 <= i < doc_lines(s).len() && 0 <= j < doc_lines(s)[i].len()
                ==> #[trigger] doc_lines(s)[i][j] != nl(),
{
    lemma_split_lines_no_nl(s);
    assert forall|i: int, j: int|
        0 <= i < doc_lines(s).len() && 0 <= j < doc_lines(s)[i].len() implies #[trigger] doc_lines(
        s)[i][j] != nl() by {
        assert(doc_lines(s)[i] == split_lines(s)[i]);
        assert(split_lines(s)[i][j] != nl());
    }
}

proof fn lemma_split_last_nonempty(s: Seq<u8>)
    requires
        s.len() > 0,
        s.last() != nl(),
    ensures
        split_lines(s).last().len() > 0,
    decreases s.len(),
{
    lemma_first_nl_bounds(s);
    let k = first_nl(s);
    if 0 <= k < s.len() {
        let rest = s.subrange(k + 1, s.len() as int);
        if rest.len() == 0 {
            assert(s[k] == nl());
            assert(k == s.len() - 1);
            assert(false);
        } else {
            assert(rest.last() == s.last());
            lemma_split_last_nonempty(rest);
            assert(split_lines(s).last() == split_lines(rest).last());
        }
    }
}

proof fn lemma_split_join_id(ls: Seq<Seq<u8>>)
    requires
        ls.len() > 0,
        forall|i: int, j: int|
            0 <= i < ls.len() && 0 <= j < ls[i].len() ==> #[trigger] ls[i][j] != nl(),
    ensures
        split_lines(join_lines(ls)) == ls,
    decreases ls.len(),
{
    let s = join_lines(ls);
    if ls.len() == 1 {
        assert(s == ls[0]);
        lemma_first_nl_is(s, s.len() as int);
        assert(split_lines(s) =~= seq![ls[0]]);
        assert(split_lines(s) =~= ls);
    } else {
        let rest = ls.drop_first();
        assert(s == ls[0] + seq![nl()] + join_lines(rest));
        assert forall|j: int| 0 <= j < ls[0].len() implies s[j] != nl() by {
            assert(s[j] == ls[0][j]);
        }
        assert(s[ls[0].len() as int] == nl());
        lemma_first_nl_is(s, ls[0].len() as int);
        assert(s.subrange(0, ls[0].len() as int) =~= ls[0]);
        assert(s.subrange(ls[0].len() as int + 1, s.len() as int) =~= join_lines(rest));
        assert forall|i: int, j: int|
            0 <= i < rest.len() && 0 <= j < rest[i].len() implies #[trigger] rest[i][j]
            != nl() by {
            assert(rest[i] == ls[i + 1]);
        }
        lemma_split_join_id(rest);
        assert(split_lines(s) == seq![ls[0]] + rest);
        assert(seq![ls[0]] + rest =~= ls);
    }
}

/// Joining lines that hold no newline, with a trailing-newline flag, gives
/// a document whose line model is those lines again — provided a
/// document without a trailing newline does not end in an empty line,
/// which no document's own line model does.
pub proof fn lemma_doc_lines_of_join(ls: Seq<Seq<u8>>, trailing: bool)
    requires
        ls.len() > 0,
        forall|i: int, j: int|
            0 <= i < ls.len() && 0 <= j < ls[i].len() ==> #[trigger] ls[i][j] != nl(),
        !trailing ==> ls.len() == 1 || ls.last().len() > 0,
    ensures
        doc_lines(join_doc(ls, trailing)) == ls,
        ends_nl(join_doc(ls, trailing)) == trailing,
{
    let s = join_doc(ls, trailing);
    if trailing {
        let lse = ls.push(Seq::<u8>::empty());
        lemma_join_snoc(ls, Seq::<u8>::empty());
        assert(join_lines(lse) == join_lines(ls) + seq![nl()] + Seq::<u8>::empty());
        assert(join_lines(lse) =~= s);
        assert forall|i: int, j: int|
            0 <= i < lse.len() && 0 <= j < lse[i].len() implies #[trigger] lse[i][j] != nl() by {
            if i < ls.len() {
                assert(lse[i] == ls[i]);
            }
        }
        lemma_split_join_id(lse);
        assert(ends_nl(s));
        assert(doc_lines(s) == lse.drop_last());
        assert(lse.drop_last() =~= ls);
    } else {
        lemma_split_join_id(ls);
        if ls.len() == 1 {
            assert(s == ls[0]);
            if s.len() > 0 {
                assert(s.last() != nl());
            }
            assert(!ends_nl(s));
        } else {
            assert(ls.last().len() > 0);
            lemma_join_snoc(ls.drop_last(), ls.last());
            assert(ls.drop_last().push(ls.last()) =~= ls);
            assert(s == join_lines(ls.drop_last()) + seq![nl()] + ls.last());
            assert(s.len() > 0);
            assert(s.last() == ls.last().last());
            assert(!ends_nl(s));
        }
    }
}

/// No line of the patch pass's output holds a newline byte, so the patched
/// document splits back into exactly the patched lines.
pub proof fn lemma_patch_lines_no_nl(ls: Seq<Seq<u8>>, toks: Seq<Seq<u8>>)
    requires
        forall|i: int, j: int|
            0 <= i < ls.len() && 0 <= j < ls[i].len() ==> #[trigger] ls[i][j] != nl(),
        missing_count(ls) <= toks.len(),
        forall|k: int| 0 <= k < toks.len() ==> is_token8(#[trigger] toks[k]),
    ensures
        forall|i: int, j: int|
            0 <= i < patch_lines(ls, toks).len() && 0 <= j < patch_lines(ls, toks)[i].len()
                ==> #[trigger] patch_lines(ls, toks)[i][j] != nl(),
{
    let ps = patch_lines(ls, toks);
    assert forall|i: int, j: int|
        0 <= i < ps.len() && 0 <= j < ps[i].len() implies #[trigger] ps[i][j] != nl() by {
        if needs_id(ls[i]) {
            lemma_missing_snoc(ls, i);
            lemma_missing_mono(ls, i + 1, ls.len() as int);
            assert(ls.subrange(0, ls.len() as int) =~= ls);
            let idx = missing_count(ls.subrange(0, i)) as int;
            let tok = toks[idx];
            let p = patched_line(ls[i], tok);
            assert(ps[i] == p);
            if j < 7 {
                assert(p[j] == marker_tag()[j]);
            } else if j < 9 {
                assert(p[j] == sigil()[j - 7]);
            } else if j < 17 {
                assert(p[j] == tok[j - 9]);
                assert(is_alphabet_byte(tok[j - 9]));
            } else {
                assert(p[j] == marker_rest(ls[i])[j - 17]);
                assert(marker_rest(ls[i])[j - 17] == ls[i][j - 17 + 7]);
            }
        } else {
            assert(ps[i] == ls[i]);
        }
    }
}

/// Marker round trip at the byte level: patch the missing identifiers into
/// a document, rebuild its text, and scan that text — the cards found are
/// exactly one per marker of the original document, each carrying its old
/// identifier where one was embedded and the matching fresh one where none
/// was, with every title and body as it stood before the patch.
pub proof fn lemma_patch_scan_bytes(doc: Seq<u8>, toks: Seq<Seq<u8>>)
    requires
        toks.len() == missing_count(doc_lines(doc)),
        forall|k: int| 0 <= k < toks.len() ==> is_token8(#[trigger] toks[k]),
    ensures
        doc_lines(join_doc(patch_lines(doc_lines(doc), toks), ends_nl(doc))) == patch_lines(
            doc_lines(doc), toks),
        spec_cards(doc_lines(join_doc(patch_lines(doc_lines(doc), toks), ends_nl(doc))), 0)
            == expected_cards(doc_lines(doc), toks, 0),
{
    let ls = doc_lines(doc);
    let ps = patch_lines(ls, toks);
    lemma_doc_lines_no_nl(doc);
    lemma_patch_lines_no_nl(ls, toks);
    assert(ls.len() > 0) by {
        if ends_nl(doc) {
            lemma_split_trailing_empty(doc);
        }
    }
    assert(ps.len() == ls.len());
    if !ends_nl(doc) {
        if ls.len() > 1 {
            assert(ls.last().len() > 0) by {
                if doc.len() == 0 {
                    lemma_first_nl_is(doc, 0);
                    assert(split_lines(doc).len() == 1);
                } else {
                    lemma_split_last_nonempty(doc);
                }
            }
            assert(ps.last().len() > 0) by {
                lemma_patch_line_facts(ls, toks, ls.len() - 1);
                if needs_id(ls[ls.len() - 1]) {
                    assert(is_marker_line(ps[ls.len() - 1]));
                } else {
                    assert(ps.last() == ls.last());
                }
            }
        }
    }
    lemma_doc_lines_of_join(ps, ends_nl(doc));
    lemma_document_round_trip_from(ls, toks, 0);
}

/// The bytes inserted at the matches before match `i`.
pub open spec fn inserted_before(insertions: Seq<usize>, i: int) -> int
    decreases i,
{
    if i <= 0 {
        0
    } else {
        inserted_before(insertions, i - 1) + insertions[i - 1]
    }
}

/// Corrects raw byte offsets of matches for the in-place insertions made at
/// the earlier matches of the same document: every earlier insertion shifts
/// a match right by its length. Returns `None` when a corrected offset
/// would not fit in a machine word.
pub fn apply_insertions(offsets: &Vec<usize>, insertions: &Vec<usize>) -> (r: Option<Vec<usize>>)
    requires
        offsets@.len() == insertions@.len(),
    ensures
        r is Some <==> (forall|i: int|
            0 <= i < offsets@.len() ==> offsets@[i] + inserted_before(insertions@, i)
                <= usize::MAX),
        r is Some ==> r->Some_0@.len() == offsets@.len(),
        r is Some ==> forall|i: int|
            0 <= i < offsets@.len() ==> r->Some_0@[i] == offsets@[i] + inserted_before(
                insertions@, i),
{
    let n = offsets.len();
    let mut out: Vec<usize> = Vec::new();
    let mut sum: usize = 0;
    let mut i: usize = 0;
    while i < n
        invariant
            i <= n,
            n == offsets@.len() == insertions@.len(),
            out@.len() == i,
            sum == inserted_before(insertions@, i as int),
            forall|k: int| 0 <= k < i ==> out@[k] == offsets@[k] + inserted_before(
                insertions@, k),
        decreases n - i,
    {
        let off = offsets[i];
        if off > usize::MAX - sum {
            assert(offsets@[i as int] + inserted_before(insertions@, i as int) > usize::MAX);
            return None;
        }
        out.push(off + sum);
        let ins = insertions[i];
        if ins > usize::MAX - sum {
            if i + 1 < n {
                assert(inserted_before(insertions@, i + 1) > usize::MAX);
                assert(offsets@[i + 1] + inserted_before(insertions@, i + 1) > usize::MAX);
                return None;
            }
            assert(i + 1 == n);
            proof {
                assert forall|k: int| 0 <= k < n implies offsets@[k] + inserted_before(
                    insertions@, k) <= usize::MAX by {
                    assert(out@[k] == offsets@[k] + inserted_before(insertions@, k));
                }
            }
            return Some(out);
        }
        sum = sum + ins;
        i += 1;
    }
    proof {
        assert forall|k: int| 0 <= k < n implies offsets@[k] + inserted_before(
            insertions@, k) <= usize::MAX by {
            assert(out@[k] == offsets@[k] + inserted_before(insertions@, k));
        }
    }
    Some(out)
}

/// Reassembles a document from its lines and trailing-newline flag.
pub fn join_doc_bytes(lines: &Vec<Vec<u8>>, trailing: bool) -> (r: Vec<u8>)
    ensures
        r@ == join_doc(lines@.map_values(|l: Vec<u8>| l@), trailing),
{
    let ghost model = lines@.map_values(|l: Vec<u8>| l@);
    let mut r: Vec<u8> = Vec::new();
    let mut i: usize = 0;
    while i < lines.len()
        invariant
            i <= lines@.len(),
            model == lines@.map_values(|l: Vec<u8>| l@),
            r@ == join_lines(model.subrange(0, i as int)),
        decreases lines@.len() - i,
    {
        if i > 0 {
            r.push(10);
        }
        let line = &lines[i];
        let mut k: usize = 0;
        let ghost base = r@;
        while k < line.len()
            invariant
                k <= line@.len(),
                line@ == model[i as int],
                r@ == base + line@.subrange(0, k as int),
            decreases line@.len() - k,
        {
            r.push(line[k]);
            k += 1;
            proof {
                assert(base + line@.subrange(0, k - 1) + seq![line@[k - 1]] =~= base
                    + line@.subrange(0, k as int));
            }
        }
        proof {
            assert(r@ =~= base + model[i as int]);
            let pre = model.subrange(0, i as int);
            if i == 0 {
                assert(pre.len() == 0);
                assert(r@ =~= model[0]);
                assert(model.subrange(0, 1)[0] == model[0]);
                assert(join_lines(model.subrange(0, 1)) == model[0]);
            } else {
                assert(pre.push(model[i as int]) =~= model.subrange(0, i + 1));
                lemma_join_snoc(pre, model[i as int]);
                assert(r@ =~= join_lines(pre) + seq![nl()] + model[i as int]);
            }
        }
        i += 1;
    }
    proof {
        assert(model.subrange(0, model.len() as int) =~= model);
    }
    if trailing {
        r.push(10);
    }
    r
}

} // verus!
