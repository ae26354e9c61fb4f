//! What the parser guarantees beyond each call's own contract: how line
//! endings are detected, how repeated and malformed header lines and the case
//! of header names are treated, and that parsed text is the message's own.
use vstd::prelude::*;
use crate::message::{
    add_segment,
    add_segments,
    field_of,
    frame,
    header_map,
    line_separator_for,
    body_separator_for,
    segments,
    uses_crlf,
};
use crate::search::{
    find,
    is_first_occurrence,
    lemma_find_absent,
    lemma_find_first,
    lemma_find_some,
    occurs_at,
};
use crate::text::{
    ascii_lower,
    ascii_lower_all,
    is_substring,
    is_white_space,
    lemma_trim_of_substring,
    trim,
    trim_end,
    trim_start,
};

verus! {

/// The first line feed of `s`, at `p`, comes right after a carriage return
/// and after no other: exactly then the CRLF convention is detected, and the
/// LF one otherwise.
pub proof fn lemma_crlf_iff_cr_right_before_first_lf(s: Seq<char>, p: int)
    requires
        is_first_occurrence(s, seq!['\n'], p),
    ensures
        uses_crlf(s) <==> (p >= 1 && s[p - 1] == '\r' && forall|j: int|
            0 <= j < p - 1 ==> s[j] != '\r'),
{
    let cr = seq!['\r'];
    lemma_find_first(s, seq!['\n'], p);
    assert forall|j: int| 0 <= j < s.len() implies #[trigger] occurs_at(s, cr, j) == (s[j]
        == '\r') by {
        if s[j] == '\r' {
            assert(s.subrange(j, j + 1) =~= cr);
        }
        if occurs_at(s, cr, j) {
            assert(s.subrange(j, j + 1)[0] == s[j]);
        }
    }
    if uses_crlf(s) {
        lemma_find_some(s, cr);
        assert(occurs_at(s, cr, p - 1));
        assert forall|j: int| 0 <= j < p - 1 implies s[j] != '\r' by {
            assert(!occurs_at(s, cr, j));
        }
    }
    if p >= 1 && s[p - 1] == '\r' && forall|j: int| 0 <= j < p - 1 ==> s[j] != '\r' {
        assert(occurs_at(s, cr, p - 1));
        assert forall|j: int| 0 <= j < p - 1 implies !#[trigger] occurs_at(s, cr, j) by {
            assert(s[j] != '\r');
        }
        lemma_find_first(s, cr, p - 1);
    }
}

/// `segment` is a non-empty header line whose name normalizes to `name`.
pub open spec fn names_header(segment: Seq<char>, name: Seq<char>) -> bool {
    &&& segment.len() > 0
    &&& field_of(segment) is Some
    &&& field_of(segment).unwrap().0 == name
}

/// Reading segments that do not name `name` leaves the entry of `name` as it was.
proof fn lemma_other_segments_keep(acc: Map<Seq<char>, Seq<char>>, segs: Seq<Seq<char>>, name: Seq<char>)
    requires
        add_segments(acc, segs) is Some,
        forall|i: int| 0 <= i < segs.len() ==> !names_header(#[trigger] segs[i], name),
    ensures
        add_segments(acc, segs)->0.contains_key(name) == acc.contains_key(name),
        acc.contains_key(name) ==> add_segments(acc, segs)->0[name] == acc[name],
    decreases segs.len(),
{
    if segs.len() > 0 {
        let next = add_segment(acc, segs[0])->0;
        assert(!names_header(segs[0], name));
        assert forall|i: int| 0 <= i < segs.drop_first().len() implies !names_header(
            #[trigger] segs.drop_first()[i],
            name,
        ) by {
            assert(segs.drop_first()[i] == segs[i + 1]);
        }
        lemma_other_segments_keep(next, segs.drop_first(), name);
    }
}

/// When several header lines share a name, the value of the last one is kept.
pub proof fn lemma_later_header_wins(block: Seq<char>, sep: Seq<char>, j: int, name: Seq<char>)
    requires
        header_map(block, sep) is Some,
        0 <= j < segments(block, sep).len(),
        names_header(segments(block, sep)[j], name),
        forall|i: int|
            j < i < segments(block, sep).len() ==> !names_header(
                #[trigger] segments(block, sep)[i],
                name,
            ),
    ensures
        header_map(block, sep)->0.contains_key(name),
        header_map(block, sep)->0[name] == field_of(segments(block, sep)[j]).unwrap().1,
{
    lemma_last_naming_segment_wins(Map::empty(), segments(block, sep), j, name);
}

proof fn lemma_last_naming_segment_wins(
    acc: Map<Seq<char>, Seq<char>>,
    segs: Seq<Seq<char>>,
    j: int,
    name: Seq<char>,
)
    requires
        add_segments(acc, segs) is Some,
        0 <= j < segs.len(),
        names_header(segs[j], name),
        forall|i: int| j < i < segs.len() ==> !names_header(#[trigger] segs[i], name),
    ensures
        add_segments(acc, segs)->0.contains_key(name),
        add_segments(acc, segs)->0[name] == field_of(segs[j]).unwrap().1,
    decreases segs.len(),
{
    let next = add_segment(acc, segs[0])->0;
    let rest = segs.drop_first();
    if j == 0 {
        assert forall|i: int| 0 <= i < rest.len() implies !names_header(#[trigger] rest[i], name) by {
            assert(rest[i] == segs[i + 1]);
        }
        lemma_other_segments_keep(next, rest, name);
    } else {
        assert(rest[j - 1] == segs[j]);
        assert forall|i: int| j - 1 < i < rest.len() implies !names_header(
            #[trigger] rest[i],
            name,
        ) by {
            assert(rest[i] == segs[i + 1]);
        }
        lemma_last_naming_segment_wins(next, rest, j - 1, name);
    }
}

/// One non-empty header line without `:` makes the whole header block fail,
/// whatever the other lines hold.
pub proof fn lemma_line_without_colon_fails(block: Seq<char>, sep: Seq<char>, j: int)
    requires
        0 <= j < segments(block, sep).len(),
        segments(block, sep)[j].len() > 0,
        forall|i: int|
            0 <= i < segments(block, sep)[j].len() ==> segments(block, sep)[j][i] != ':',
    ensures
        header_map(block, sep) is None,
{
    let seg = segments(block, sep)[j];
    assert forall|i: int| !#[trigger] occurs_at(seg, seq![':'], i) by {
        if occurs_at(seg, seq![':'], i) {
            assert(seg.subrange(i, i + 1)[0] == seg[i]);
        }
    }
    lemma_find_absent(seg, seq![':']);
    lemma_malformed_segment_fails(Map::empty(), segments(block, sep), j);
}

proof fn lemma_malformed_segment_fails(acc: Map<Seq<char>, Seq<char>>, segs: Seq<Seq<char>>, j: int)
    requires
        0 <= j < segs.len(),
        segs[j].len() > 0,
        field_of(segs[j]) is None,
    ensures
        add_segments(acc, segs) is None,
    decreases segs.len(),
{
    if j > 0 {
        if let Some(next) = add_segment(acc, segs[0]) {
            assert(segs.drop_first()[j - 1] == segs[j]);
            lemma_malformed_segment_fails(next, segs.drop_first(), j - 1);
        }
    }
}

/// A run of a run of `s` is a run of `s`.
proof fn lemma_substring_of_substring(t: Seq<char>, b: Seq<char>, s: Seq<char>)
    requires
        is_substring(t, b),
        is_substring(b, s),
    ensures
        is_substring(t, s),
{
    let (i1, i2) = choose|i1: int, i2: int| 0 <= i1 <= i2 <= b.len() && #[trigger] b.subrange(i1, i2) == t;
    let (j1, j2) = choose|j1: int, j2: int| 0 <= j1 <= j2 <= s.len() && #[trigger] s.subrange(j1, j2) == b;
    assert(s.subrange(j1 + i1, j1 + i2) =~= t);
}

/// Every segment of a block is a run of the block.
proof fn lemma_segments_within(block: Seq<char>, sep: Seq<char>)
    ensures
        forall|i: int|
            0 <= i < segments(block, sep).len() ==> is_substring(
                #[trigger] segments(block, sep)[i],
                block,
            ),
    decreases block.len(),
{
    let segs = segments(block, sep);
    assert(block.subrange(0, block.len() as int) =~= block);
    if let Some(k) = find(block, sep) {
        if 0 <= k && 0 < sep.len() && k + sep.len() <= block.len() {
            let rest = block.subrange(k + sep.len(), block.len() as int);
            lemma_segments_within(rest, sep);
            assert(is_substring(rest, block));
            assert(is_substring(block.subrange(0, k), block));
            assert forall|i: int| 0 <= i < segs.len() implies is_substring(
                #[trigger] segs[i],
                block,
            ) by {
                if i > 0 {
                    assert(segs[i] == segments(rest, sep)[i - 1]);
                    lemma_substring_of_substring(segs[i], rest, block);
                }
            }
        }
    }
}

/// Reading segments that are runs of `s` into a map whose values are runs of
/// `s` gives a map whose values are runs of `s`.
proof fn lemma_values_within(acc: Map<Seq<char>, Seq<char>>, segs: Seq<Seq<char>>, s: Seq<char>)
    requires
        add_segments(acc, segs) is Some,
        forall|k: Seq<char>| acc.contains_key(k) ==> is_substring(#[trigger] acc[k], s),
        forall|i: int| 0 <= i < segs.len() ==> is_substring(#[trigger] segs[i], s),
    ensures
        forall|k: Seq<char>|
            add_segments(acc, segs).unwrap().contains_key(k) ==> is_substring(
                #[trigger] add_segments(acc, segs).unwrap()[k],
                s,
            ),
    decreases segs.len(),
{
    if segs.len() > 0 {
        let seg = segs[0];
        let next = add_segment(acc, seg).unwrap();
        assert(is_substring(segs[0], s));
        if seg.len() > 0 {
            let c = find(seg, seq![':']).unwrap();
            lemma_find_some(seg, seq![':']);
            let v = seg.subrange(c + 1, seg.len() as int);
            lemma_trim_of_substring(v, seg, c + 1);
            lemma_substring_of_substring(trim(v), seg, s);
            assert forall|k: Seq<char>| next.contains_key(k) implies is_substring(
                #[trigger] next[k],
                s,
            ) by {
                if k != field_of(seg).unwrap().0 {
                    assert(acc[k] == next[k]);
                }
            }
        }
        assert forall|i: int| 0 <= i < segs.drop_first().len() implies is_substring(
            #[trigger] segs.drop_first()[i],
            s,
        ) by {
            assert(segs.drop_first()[i] == segs[i + 1]);
        }
        lemma_values_within(next, segs.drop_first(), s);
    }
}

/// What a parse returns is text of the message itself: the initial line is
/// its beginning, and each header value is a run of its characters.
pub proof fn lemma_parsed_text_is_borrowed(s: Seq<char>)
    requires
        frame(s) is Some,
        header_map(frame(s).unwrap().1, line_separator_for(uses_crlf(s))) is Some,
    ensures
        s.subrange(0, frame(s).unwrap().0.len() as int) == frame(s).unwrap().0,
        forall|k: Seq<char>|
            header_map(frame(s).unwrap().1, line_separator_for(uses_crlf(s))).unwrap().contains_key(
                k,
            ) ==> is_substring(
                #[trigger] header_map(
                    frame(s).unwrap().1,
                    line_separator_for(uses_crlf(s)),
                ).unwrap()[k],
                s,
            ),
{
    let crlf = uses_crlf(s);
    let ls = line_separator_for(crlf);
    let k = find(s, ls).unwrap();
    lemma_find_some(s, ls);
    let rest = s.subrange(k + ls.len(), s.len() as int);
    let b = find(rest, body_separator_for(crlf)).unwrap();
    lemma_find_some(rest, body_separator_for(crlf));
    let block = frame(s).unwrap().1;
    assert(block =~= s.subrange(k + ls.len(), k + ls.len() + b));
    assert(is_substring(block, s));
    let segs = segments(block, ls);
    lemma_segments_within(block, ls);
    assert forall|i: int| 0 <= i < segs.len() implies is_substring(#[trigger] segs[i], s) by {
        lemma_substring_of_substring(segs[i], block, s);
    }
    lemma_values_within(Map::empty(), segs, s);
}

/// Characters equal up to ASCII case are both white space or both not.
proof fn lemma_case_keeps_white_space(c: char, d: char)
    requires
        ascii_lower(c) == ascii_lower(d),
    ensures
        is_white_space(c) == is_white_space(d),
{
    if 'A' <= c <= 'Z' {
        assert('a' <= ascii_lower(c) <= 'z');
    }
    if 'A' <= d <= 'Z' {
        assert('a' <= ascii_lower(d) <= 'z');
    }
}

/// Trimming texts equal up to ASCII case leaves texts equal up to ASCII case.
proof fn lemma_trim_keeps_case_equality(a: Seq<char>, b: Seq<char>)
    requires
        ascii_lower_all(a) == ascii_lower_all(b),
    ensures
        ascii_lower_all(trim_start(a)) == ascii_lower_all(trim_start(b)),
        ascii_lower_all(trim_end(a)) == ascii_lower_all(trim_end(b)),
    decreases a.len(),
{
    assert(a.len() == ascii_lower_all(a).len());
    assert(b.len() == ascii_lower_all(b).len());
    if a.len() > 0 {
        let n = a.len() - 1;
        assert(ascii_lower_all(a)[0] == ascii_lower(a[0]));
        assert(ascii_lower_all(b)[0] == ascii_lower(b[0]));
        assert(ascii_lower_all(a)[n] == ascii_lower(a[n]));
        assert(ascii_lower_all(b)[n] == ascii_lower(b[n]));
        lemma_case_keeps_white_space(a[0], b[0]);
        lemma_case_keeps_white_space(a.last(), b.last());
        assert(ascii_lower_all(a.drop_first()) =~= ascii_lower_all(a).drop_first());
        assert(ascii_lower_all(b.drop_first()) =~= ascii_lower_all(b).drop_first());
        assert(ascii_lower_all(a.drop_last()) =~= ascii_lower_all(a).drop_last());
        assert(ascii_lower_all(b.drop_last()) =~= ascii_lower_all(b).drop_last());
        lemma_trim_keeps_case_equality(a.drop_first(), b.drop_first());
        lemma_trim_keeps_case_equality(a.drop_last(), b.drop_last());
    }
}

/// The header line `name: value`, read by `field_of`.
proof fn lemma_field_of_line(name: Seq<char>, value: Seq<char>)
    requires
        forall|i: int| 0 <= i < name.len() ==> name[i] != ':',
    ensures
        field_of(name + seq![':'] + value) == Some((ascii_lower_all(trim(name)), trim(value))),
{
    let line = name + seq![':'] + value;
    let k = name.len() as int;
    assert(line.subrange(k, k + 1) =~= seq![':']);
    assert forall|j: int| 0 <= j < k implies !#[trigger] occurs_at(line, seq![':'], j) by {
        assert(line.subrange(j, j + 1)[0] == name[j]);
    }
    lemma_find_first(line, seq![':'], k);
    assert(line.subrange(0, k) =~= name);
    assert(line.subrange(k + 1, line.len() as int) =~= value);
}

/// Header names are read without regard to ASCII case: two header lines whose
/// names differ only in the case of ASCII letters give the same key.
pub proof fn lemma_header_name_case_is_ignored(a: Seq<char>, b: Seq<char>, value: Seq<char>)
    requires
        ascii_lower_all(a) == ascii_lower_all(b),
        forall|i: int| 0 <= i < a.len() ==> a[i] != ':',
        forall|i: int| 0 <= i < b.len() ==> b[i] != ':',
    ensures
        field_of(a + seq![':'] + value) is Some,
        field_of(a + seq![':'] + value) == field_of(b + seq![':'] + value),
{
    lemma_field_of_line(a, value);
    lemma_field_of_line(b, value);
    lemma_trim_keeps_case_equality(a, b);
    lemma_trim_keeps_case_equality(trim_start(a), trim_start(b));
}

} // verus!
