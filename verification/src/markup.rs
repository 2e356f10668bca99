//! Inline markup language for rich description text.
//!
//! A description is free text with embedded tags of the form
//! `<link="VALUE" text="TEXT">`, `<image="VALUE" text="TEXT">` or
//! `<sound="VALUE" text="TEXT">`, where `VALUE` and `TEXT` are
//! non-empty runs of characters other than `"`. Parsing scans left to
//! right; every non-overlapping tag becomes a typed element, the text
//! between and around tags becomes plain text elements, and anything
//! that fails to match the grammar is carried along as plain text.
//! Serialization is the exact inverse: it reproduces the input
//! character for character (`lemma_serialize_parse`).

use crate::chars::{char_range_to_string, push_char, str_to_char_vec};
use vstd::prelude::*;
use vstd::string::StringExecFns;

verus! {

/// A link shown as `text`, pointing at `link`.
#[derive(Debug, PartialEq)]
pub struct Link {
    pub text: String,
    pub link: String,
}

/// An image reference shown as `text`, naming the resource `image`.
#[derive(Debug, PartialEq)]
pub struct DescriptionImage {
    pub text: String,
    pub image: String,
}

/// A sound reference shown as `text`, naming the resource `sound`.
#[derive(Debug, PartialEq)]
pub struct DescriptionSound {
    pub text: String,
    pub sound: String,
}

/// One typed piece of a parsed description.
#[derive(Debug, PartialEq)]
pub enum DescriptionElement {
    Text(String),
    Link(Link),
    Image(DescriptionImage),
    Sound(DescriptionSound),
}

/// Mathematical image of a `DescriptionElement`.
pub enum ElementView {
    Text { text: Seq<char> },
    Link { text: Seq<char>, link: Seq<char> },
    Image { text: Seq<char>, image: Seq<char> },
    Sound { text: Seq<char>, sound: Seq<char> },
}

impl View for DescriptionElement {
    type V = ElementView;

    open spec fn view(&self) -> ElementView {
        match self {
            DescriptionElement::Text(t) => ElementView::Text { text: t@ },
            DescriptionElement::Link(l) => ElementView::Link { text: l.text@, link: l.link@ },
            DescriptionElement::Image(m) => ElementView::Image { text: m.text@, image: m.image@ },
            DescriptionElement::Sound(n) => ElementView::Sound { text: n.text@, sound: n.sound@ },
        }
    }
}

impl DeepView for DescriptionElement {
    type V = ElementView;

    open spec fn deep_view(&self) -> ElementView {
        self.view()
    }
}

impl Clone for Link {
    fn clone(&self) -> (r: Self)
        ensures
            r.text@ == self.text@,
            r.link@ == self.link@,
    {
        Link { text: self.text.clone(), link: self.link.clone() }
    }
}

impl Clone for DescriptionImage {
    fn clone(&self) -> (r: Self)
        ensures
            r.text@ == self.text@,
            r.image@ == self.image@,
    {
        DescriptionImage { text: self.text.clone(), image: self.image.clone() }
    }
}

impl Clone for DescriptionSound {
    fn clone(&self) -> (r: Self)
        ensures
            r.text@ == self.text@,
            r.sound@ == self.sound@,
    {
        DescriptionSound { text: self.text.clone(), sound: self.sound.clone() }
    }
}

impl Clone for DescriptionElement {
    fn clone(&self) -> (r: Self)
        ensures
            r@ == self@,
    {
        match self {
            DescriptionElement::Text(t) => DescriptionElement::Text(t.clone()),
            DescriptionElement::Link(l) => DescriptionElement::Link(l.clone()),
            DescriptionElement::Image(m) => DescriptionElement::Image(m.clone()),
            DescriptionElement::Sound(n) => DescriptionElement::Sound(n.clone()),
        }
    }
}

/// The three recognized tag kinds.
#[derive(Clone, Copy, Debug, PartialEq, Eq, Structural)]
pub enum TagKind {
    Link,
    Image,
    Sound,
}

/// Opening marker of a link tag: `<link="`.
pub open spec fn open_link() -> Seq<char> {
    seq!['<', 'l', 'i', 'n', 'k', '=', '"']
}

/// Opening marker of an image tag: `<image="`.
pub open spec fn open_image() -> Seq<char> {
    seq!['<', 'i', 'm', 'a', 'g', 'e', '=', '"']
}

/// Opening marker of a sound tag: `<sound="`.
pub open spec fn open_sound() -> Seq<char> {
    seq!['<', 's', 'o', 'u', 'n', 'd', '=', '"']
}

/// Middle marker between the value and the display text: `" text="`.
pub open spec fn mid_marker() -> Seq<char> {
    seq!['"', ' ', 't', 'e', 'x', 't', '=', '"']
}

/// Closing marker of a tag: `">`.
pub open spec fn close_marker() -> Seq<char> {
    seq!['"', '>']
}

/// The opening marker of the given kind.
pub open spec fn open_marker(kind: TagKind) -> Seq<char> {
    match kind {
        TagKind::Link => open_link(),
        TagKind::Image => open_image(),
        TagKind::Sound => open_sound(),
    }
}

/// The typed element for a tag of the given kind.
pub open spec fn mk_element(kind: TagKind, value: Seq<char>, text: Seq<char>) -> ElementView {
    match kind {
        TagKind::Link => ElementView::Link { text, link: value },
        TagKind::Image => ElementView::Image { text, image: value },
        TagKind::Sound => ElementView::Sound { text, sound: value },
    }
}

/// Does `pat` occur in `s` starting at index `i`?
pub open spec fn matches_at(s: Seq<char>, i: int, pat: Seq<char>) -> bool {
    0 <= i && i + pat.len() <= s.len() && s.subrange(i, i + pat.len()) == pat
}

/// Index of the first `"` at or after `j`, or `s.len()` if there is none.
pub open spec fn next_quote(s: Seq<char>, j: int) -> int
    decreases s.len() - j,
{
    if j >= s.len() {
        s.len() as int
    } else if s[j] == '"' {
        j
    } else {
        next_quote(s, j + 1)
    }
}

pub proof fn lemma_next_quote(s: Seq<char>, j: int)
    requires
        0 <= j <= s.len(),
    ensures
        j <= next_quote(s, j) <= s.len(),
        next_quote(s, j) < s.len() ==> s[next_quote(s, j)] == '"',
        forall|k: int| j <= k < next_quote(s, j) ==> s[k] != '"',
    decreases s.len() - j,
{
    if j < s.len() && s[j] != '"' {
        lemma_next_quote(s, j + 1);
    }
}

/// The kind of tag whose opening marker occurs at `i`, if any.
pub open spec fn open_kind_at(s: Seq<char>, i: int) -> Option<TagKind> {
    if matches_at(s, i, open_link()) {
        Some(TagKind::Link)
    } else if matches_at(s, i, open_image()) {
        Some(TagKind::Image)
    } else if matches_at(s, i, open_sound()) {
        Some(TagKind::Sound)
    } else {
        None
    }
}

/// The element and end position of the tag starting at `i`, if the
/// text from `i` on matches the tag grammar.
pub open spec fn try_tag(s: Seq<char>, i: int) -> Option<(ElementView, int)> {
    match open_kind_at(s, i) {
        Some(kind) => {
            let vs = i + open_marker(kind).len();
            let ve = next_quote(s, vs);
            if ve == vs || ve >= s.len() || !matches_at(s, ve, mid_marker()) {
                None
            } else {
                let ts = ve + mid_marker().len();
                let te = next_quote(s, ts);
                if te == ts || te >= s.len() || !matches_at(s, te, close_marker()) {
                    None
                } else {
                    Some((mk_element(kind, s.subrange(vs, ve), s.subrange(ts, te)), te + 2))
                }
            }
        },
        None => None,
    }
}

/// When a tag matches at `i`, its end lies strictly past `i` and
/// within the text, and the element it yields is not plain text.
pub proof fn lemma_try_tag_bounds(s: Seq<char>, i: int)
    requires
        try_tag(s, i) is Some,
    ensures
        i < try_tag(s, i)->Some_0.1 <= s.len(),
        !(try_tag(s, i)->Some_0.0 is Text),
{
    let kind = open_kind_at(s, i)->Some_0;
    let vs = i + open_marker(kind).len();
    let ve = next_quote(s, vs);
    lemma_next_quote(s, vs);
    let ts = ve + mid_marker().len();
    lemma_next_quote(s, ts);
}

/// `rest`, with the character `c` prepended to its leading plain text
/// element (or as a fresh plain text element).
pub open spec fn prepend_char(c: char, rest: Seq<ElementView>) -> Seq<ElementView> {
    if rest.len() > 0 && rest[0] is Text {
        seq![ElementView::Text { text: seq![c] + rest[0]->Text_text }] + rest.drop_first()
    } else {
        seq![ElementView::Text { text: seq![c] }] + rest
    }
}

/// The parse of `s` from position `i` to the end.
pub open spec fn parse_from(s: Seq<char>, i: int) -> Seq<ElementView>
    decreases s.len() - i,
    when 0 <= i
    via parse_from_decreases
{
    if i >= s.len() {
        Seq::empty()
    } else {
        match try_tag(s, i) {
            Some((element, end)) => seq![element] + parse_from(s, end),
            None => prepend_char(s[i], parse_from(s, i + 1)),
        }
    }
}

#[via_fn]
proof fn parse_from_decreases(s: Seq<char>, i: int) {
    if i < s.len() && try_tag(s, i) is Some {
        lemma_try_tag_bounds(s, i);
    }
}

/// The parse of the whole of `s`: the segments of the description.
pub open spec fn parse_spec(s: Seq<char>) -> Seq<ElementView> {
    parse_from(s, 0)
}

/// The literal text of one element.
pub open spec fn render_element(e: ElementView) -> Seq<char> {
    match e {
        ElementView::Text { text } => text,
        ElementView::Link { text, link } => open_link() + link + mid_marker() + text
            + close_marker(),
        ElementView::Image { text, image } => open_image() + image + mid_marker() + text
            + close_marker(),
        ElementView::Sound { text, sound } => open_sound() + sound + mid_marker() + text
            + close_marker(),
    }
}

/// The serialization of a description: its elements' literal text,
/// concatenated in order.
pub open spec fn render_elements(es: Seq<ElementView>) -> Seq<char>
    decreases es.len(),
{
    if es.len() == 0 {
        Seq::empty()
    } else {
        render_element(es[0]) + render_elements(es.drop_first())
    }
}

pub proof fn lemma_render_elements_cons(e: ElementView, es: Seq<ElementView>)
    ensures
        render_elements(seq![e] + es) == render_element(e) + render_elements(es),
{
    let all = seq![e] + es;
    assert(all[0] == e);
    assert(all.drop_first() =~= es);
}

/// Splitting a sequence of elements splits its rendering.
pub proof fn lemma_render_elements_concat(a: Seq<ElementView>, b: Seq<ElementView>)
    ensures
        render_elements(a + b) == render_elements(a) + render_elements(b),
    decreases a.len(),
{
    if a.len() == 0 {
        assert(a + b =~= b);
        assert(render_elements(a) + render_elements(b) =~= render_elements(b));
    } else {
        assert((a + b).drop_first() =~= a.drop_first() + b);
        assert((a + b)[0] == a[0]);
        lemma_render_elements_concat(a.drop_first(), b);
        assert(render_element(a[0]) + (render_elements(a.drop_first()) + render_elements(b))
            =~= (render_element(a[0]) + render_elements(a.drop_first())) + render_elements(b));
    }
}

/// A matched tag renders back to exactly the text it was parsed from.
proof fn lemma_try_tag_render(s: Seq<char>, i: int)
    requires
        0 <= i,
        try_tag(s, i) is Some,
    ensures
        render_element(try_tag(s, i)->Some_0.0) == s.subrange(i, try_tag(s, i)->Some_0.1),
{
    let kind = open_kind_at(s, i)->Some_0;
    let vs = i + open_marker(kind).len();
    let ve = next_quote(s, vs);
    let ts = ve + mid_marker().len();
    let te = next_quote(s, ts);
    let end = te + 2;
    lemma_next_quote(s, vs);
    lemma_next_quote(s, ts);
    let value = s.subrange(vs, ve);
    let text = s.subrange(ts, te);
    assert(s.subrange(i, vs) == open_marker(kind));
    assert(s.subrange(ve, ts) == mid_marker());
    assert(s.subrange(te, end) == close_marker());
    assert(s.subrange(i, end) =~= s.subrange(i, vs) + s.subrange(vs, ve) + s.subrange(ve, ts)
        + s.subrange(ts, te) + s.subrange(te, end));
    assert(render_element(mk_element(kind, value, text)) =~= open_marker(kind) + value
        + mid_marker() + text + close_marker());
}

/// Prepending a character to a parse prepends it to the rendering.
proof fn lemma_render_prepend_char(c: char, rest: Seq<ElementView>)
    ensures
        render_elements(prepend_char(c, rest)) == seq![c] + render_elements(rest),
{
    if rest.len() > 0 && rest[0] is Text {
        let t = rest[0]->Text_text;
        let merged = ElementView::Text { text: seq![c] + t };
        lemma_render_elements_cons(merged, rest.drop_first());
        lemma_render_elements_cons(rest[0], rest.drop_first());
        assert(seq![rest[0]] + rest.drop_first() =~= rest);
        assert(render_elements(rest) == t + render_elements(rest.drop_first()));
        assert((seq![c] + t) + render_elements(rest.drop_first()) =~= seq![c] + (t
            + render_elements(rest.drop_first())));
    } else {
        let fresh = ElementView::Text { text: seq![c] };
        lemma_render_elements_cons(fresh, rest);
    }
}

/// Serializing the parse of any suffix of `s` restores that suffix.
proof fn lemma_render_parse_from(s: Seq<char>, i: int)
    requires
        0 <= i <= s.len(),
    ensures
        render_elements(parse_from(s, i)) == s.subrange(i, s.len() as int),
    decreases s.len() - i,
{
    if i >= s.len() {
        assert(s.subrange(i, s.len() as int) =~= Seq::<char>::empty());
    } else {
        match try_tag(s, i) {
            Some((element, end)) => {
                lemma_try_tag_bounds(s, i);
                lemma_try_tag_render(s, i);
                lemma_render_elements_cons(element, parse_from(s, end));
                lemma_render_parse_from(s, end);
                assert(s.subrange(i, end) + s.subrange(end, s.len() as int) =~= s.subrange(
                    i,
                    s.len() as int,
                ));
            },
            None => {
                lemma_render_prepend_char(s[i], parse_from(s, i + 1));
                lemma_render_parse_from(s, i + 1);
                assert(seq![s[i]] + s.subrange(i + 1, s.len() as int) =~= s.subrange(
                    i,
                    s.len() as int,
                ));
            },
        }
    }
}

/// The characters of the opening marker of `kind`, as a vector.
fn open_marker_vec(kind: TagKind) -> (v: Vec<char>)
    ensures
        v@ == open_marker(kind),
{
    match kind {
        TagKind::Link => {
            let v = str_to_char_vec("<link=\"");
            proof {
                reveal_strlit("<link=\"");
                assert(v@ =~= open_link());
            }
            v
        },
        TagKind::Image => {
            let v = str_to_char_vec("<image=\"");
            proof {
                reveal_strlit("<image=\"");
                assert(v@ =~= open_image());
            }
            v
        },
        TagKind::Sound => {
            let v = str_to_char_vec("<sound=\"");
            proof {
                reveal_strlit("<sound=\"");
                assert(v@ =~= open_sound());
            }
            v
        },
    }
}

/// The characters of the middle marker `" text="`, as a vector.
fn mid_marker_vec() -> (v: Vec<char>)
    ensures
        v@ == mid_marker(),
{
    let v = str_to_char_vec("\" text=\"");
    proof {
        reveal_strlit("\" text=\"");
        assert(v@ =~= mid_marker());
    }
    v
}

/// The characters of the closing marker `">`, as a vector.
fn close_marker_vec() -> (v: Vec<char>)
    ensures
        v@ == close_marker(),
{
    let v = str_to_char_vec("\">");
    proof {
        reveal_strlit("\">");
        assert(v@ =~= close_marker());
    }
    v
}

/// Does `pat` occur in `s` starting at index `i`?
fn matches_at_exec(s: &Vec<char>, i: usize, pat: &Vec<char>) -> (r: bool)
    ensures
        r == matches_at(s@, i as int, pat@),
{
    if i > s.len() || s.len() - i < pat.len() {
        return false;
    }
    let mut k: usize = 0;
    while k < pat.len()
        invariant
            k <= pat.len(),
            i + pat.len() <= s@.len() <= usize::MAX,
            forall|m: int| 0 <= m < k ==> s@[i + m] == pat@[m],
        decreases pat.len() - k,
    {
        if s[i + k] != pat[k] {
            assert(s@.subrange(i as int, i + pat@.len())[k as int] != pat@[k as int]);
            return false;
        }
        k = k + 1;
    }
    proof {
        assert(s@.subrange(i as int, i + pat@.len()) =~= pat@);
    }
    true
}

/// Index of the first `"` at or after `j`, or `s.len()` if none.
fn find_quote(s: &Vec<char>, j: usize) -> (k: usize)
    requires
        j <= s@.len(),
    ensures
        k == next_quote(s@, j as int),
{
    let mut k = j;
    while k < s.len()
        invariant
            j <= k <= s@.len(),
            next_quote(s@, j as int) == next_quote(s@, k as int),
        decreases s@.len() - k,
    {
        if s[k] == '"' {
            return k;
        }
        k = k + 1;
    }
    k
}

/// The element and end position of the tag starting at `i`, if the
/// tag grammar matches there.
fn try_tag_exec(s: &Vec<char>, i: usize) -> (r: Option<(DescriptionElement, usize)>)
    ensures
        match r {
            Some(p) => {
                &&& try_tag(s@, i as int) == Some((p.0@, p.1 as int))
                &&& i < p.1 <= s@.len()
            },
            None => try_tag(s@, i as int) is None,
        },
{
    let kind: TagKind;
    if matches_at_exec(s, i, &open_marker_vec(TagKind::Link)) {
        kind = TagKind::Link;
    } else if matches_at_exec(s, i, &open_marker_vec(TagKind::Image)) {
        kind = TagKind::Image;
    } else if matches_at_exec(s, i, &open_marker_vec(TagKind::Sound)) {
        kind = TagKind::Sound;
    } else {
        return None;
    }
    assert(open_kind_at(s@, i as int) == Some(kind));
    assert(matches_at(s@, i as int, open_marker(kind)));
    let n = s.len();
    assert(i + open_marker(kind).len() <= n);
    let om = open_marker_vec(kind);
    let vs = i + om.len();
    let ve = find_quote(s, vs);
    proof {
        lemma_next_quote(s@, vs as int);
    }
    if ve == vs || ve >= s.len() {
        return None;
    }
    if !matches_at_exec(s, ve, &mid_marker_vec()) {
        return None;
    }
    let ts = ve + 8;
    let te = find_quote(s, ts);
    proof {
        lemma_next_quote(s@, ts as int);
    }
    if te == ts || te >= s.len() {
        return None;
    }
    if !matches_at_exec(s, te, &close_marker_vec()) {
        return None;
    }
    let value = char_range_to_string(s, vs, ve);
    let text = char_range_to_string(s, ts, te);
    let element = match kind {
        TagKind::Link => DescriptionElement::Link(Link { text, link: value }),
        TagKind::Image => DescriptionElement::Image(DescriptionImage { text, image: value }),
        TagKind::Sound => DescriptionElement::Sound(DescriptionSound { text, sound: value }),
    };
    proof {
        lemma_try_tag_bounds(s@, i as int);
    }
    Some((element, te + 2))
}

/// `rest`, with the pending gap text `pending` carried in front of it
/// as a plain text element (merging with a leading text element).
pub open spec fn glue(pending: Seq<char>, rest: Seq<ElementView>) -> Seq<ElementView> {
    if pending.len() == 0 {
        rest
    } else if rest.len() > 0 && rest[0] is Text {
        seq![ElementView::Text { text: pending + rest[0]->Text_text }] + rest.drop_first()
    } else {
        seq![ElementView::Text { text: pending }] + rest
    }
}

/// Moving one character from the parse's head into the pending gap
/// text does not change the glued result.
proof fn lemma_glue_step(pending: Seq<char>, c: char, rest: Seq<ElementView>)
    ensures
        glue(pending, prepend_char(c, rest)) == glue(pending.push(c), rest),
{
    let pc = pending.push(c);
    if rest.len() > 0 && rest[0] is Text {
        let t = rest[0]->Text_text;
        let merged = seq![ElementView::Text { text: seq![c] + t }] + rest.drop_first();
        assert(prepend_char(c, rest) == merged);
        assert(merged[0] is Text);
        if pending.len() == 0 {
            assert(pc + t =~= seq![c] + t);
            assert(glue(pc, rest) =~~= merged);
        } else {
            assert(merged.drop_first() =~= rest.drop_first());
            assert(pending + (seq![c] + t) =~= pc + t);
            assert(glue(pending, merged) =~~= glue(pc, rest));
        }
    } else {
        let fresh = seq![ElementView::Text { text: seq![c] }] + rest;
        assert(prepend_char(c, rest) == fresh);
        assert(fresh[0] is Text);
        if pending.len() == 0 {
            assert(pc =~= seq![c]);
            assert(glue(pc, rest) =~~= fresh);
        } else {
            assert(fresh.drop_first() =~= rest);
            assert(pending + seq![c] =~= pc);
            assert(glue(pending, fresh) =~~= glue(pc, rest));
        }
    }
}

/// Parse a raw description into its elements.
///
/// Every non-overlapping tag match becomes a typed element; the text
/// between and around matches becomes plain text elements (an empty
/// gap produces none); malformed or unrecognized tags stay plain
/// text. The result is exactly `parse_spec` of the input.
pub fn parse_description_elements(description: String) -> (r: Vec<DescriptionElement>)
    ensures
        r.deep_view() == parse_spec(description@),
{
    let s = str_to_char_vec(description.as_str());
    let mut out: Vec<DescriptionElement> = Vec::new();
    let mut i: usize = 0;
    let mut last: usize = 0;
    while i < s.len()
        invariant
            last <= i <= s@.len(),
            s@ == description@,
            parse_spec(description@) == out.deep_view() + glue(
                s@.subrange(last as int, i as int),
                parse_from(s@, i as int),
            ),
        decreases s@.len() - i,
    {
        let ghost pending = s@.subrange(last as int, i as int);
        match try_tag_exec(&s, i) {
            Some(p) => {
                let (element, end) = p;
                let ghost out0 = out.deep_view();
                let ghost rest = parse_from(s@, end as int);
                proof {
                    lemma_try_tag_bounds(s@, i as int);
                    assert(parse_from(s@, i as int) == seq![element@] + rest);
                }
                if last < i {
                    let gap = char_range_to_string(&s, last, i);
                    out.push(DescriptionElement::Text(gap));
                    proof {
                        assert(out.deep_view() =~= out0.push(ElementView::Text { text: pending }));
                    }
                }
                out.push(element);
                proof {
                    assert((seq![element@] + rest)[0] == element@);
                    if pending.len() == 0 {
                        assert(glue(pending, seq![element@] + rest) == seq![element@] + rest);
                        assert(out.deep_view() =~= out0.push(element@));
                        assert(out0 + (seq![element@] + rest) =~= out.deep_view() + rest);
                    } else {
                        assert(glue(pending, seq![element@] + rest) == seq![ElementView::Text {
                            text: pending,
                        }] + (seq![element@] + rest));
                        assert(out.deep_view() =~= out0.push(
                            ElementView::Text { text: pending },
                        ).push(element@));
                        assert(out0 + (seq![ElementView::Text { text: pending }] + (seq![element@]
                            + rest)) =~= out.deep_view() + rest);
                    }
                    assert(s@.subrange(end as int, end as int) =~= Seq::<char>::empty());
                    assert(glue(s@.subrange(end as int, end as int), rest) == rest);
                }
                i = end;
                last = end;
            },
            None => {
                proof {
                    lemma_glue_step(pending, s@[i as int], parse_from(s@, i + 1));
                    assert(pending.push(s@[i as int]) =~= s@.subrange(last as int, i + 1));
                }
                i = i + 1;
            },
        }
    }
    let ghost out0 = out.deep_view();
    let ghost pending = s@.subrange(last as int, s@.len() as int);
    if last < s.len() {
        let gap = char_range_to_string(&s, last, s.len());
        out.push(DescriptionElement::Text(gap));
        proof {
            assert(glue(pending, parse_from(s@, s@.len() as int)) =~= seq![ElementView::Text {
                text: pending,
            }]);
            assert(out.deep_view() =~= out0 + glue(pending, parse_from(s@, s@.len() as int)));
        }
    } else {
        proof {
            assert(pending.len() == 0);
            assert(out.deep_view() + glue(pending, parse_from(s@, s@.len() as int))
                =~= out.deep_view());
        }
    }
    out
}

/// Serialize elements back to raw description text.
///
/// Each element maps to its literal form — plain text to itself, a
/// tag to `<kind="VALUE" text="TEXT">` — concatenated in order; the
/// result is exactly `render_elements` of the input.
pub fn serialize_description_elements(elements: Vec<DescriptionElement>) -> (r: String)
    ensures
        r@ == render_elements(elements.deep_view()),
{
    let mut out = String::new();
    let mut i: usize = 0;
    while i < elements.len()
        invariant
            i <= elements@.len(),
            out@ == render_elements(elements.deep_view().take(i as int)),
        decreases elements@.len() - i,
    {
        proof {
            assert(elements.deep_view().take(i + 1).drop_last() =~= elements.deep_view().take(
                i as int,
            ));
            lemma_render_elements_snoc(elements.deep_view().take(i + 1));
        }
        match &elements[i] {
            DescriptionElement::Text(t) => {
                out.append(t.as_str());
            },
            DescriptionElement::Link(l) => {
                out.append("<link=\"");
                out.append(l.link.as_str());
                out.append("\" text=\"");
                out.append(l.text.as_str());
                out.append("\">");
                proof {
                    reveal_strlit("<link=\"");
                    reveal_strlit("\" text=\"");
                    reveal_strlit("\">");
                    assert(("<link=\"")@ =~= open_link());
                    assert(("\" text=\"")@ =~= mid_marker());
                    assert(("\">")@ =~= close_marker());
                }
            },
            DescriptionElement::Image(m) => {
                out.append("<image=\"");
                out.append(m.image.as_str());
                out.append("\" text=\"");
                out.append(m.text.as_str());
                out.append("\">");
                proof {
                    reveal_strlit("<image=\"");
                    reveal_strlit("\" text=\"");
                    reveal_strlit("\">");
                    assert(("<image=\"")@ =~= open_image());
                    assert(("\" text=\"")@ =~= mid_marker());
                    assert(("\">")@ =~= close_marker());
                }
            },
            DescriptionElement::Sound(n) => {
                out.append("<sound=\"");
                out.append(n.sound.as_str());
                out.append("\" text=\"");
                out.append(n.text.as_str());
                out.append("\">");
                proof {
                    reveal_strlit("<sound=\"");
                    reveal_strlit("\" text=\"");
                    reveal_strlit("\">");
                    assert(("<sound=\"")@ =~= open_sound());
                    assert(("\" text=\"")@ =~= mid_marker());
                    assert(("\">")@ =~= close_marker());
                }
            },
        }
        proof {
            assert(out@ =~= render_elements(elements.deep_view().take(i + 1)));
        }
        i = i + 1;
    }
    proof {
        assert(elements.deep_view().take(elements@.len() as int) =~= elements.deep_view());
    }
    out
}

/// Rendering a non-empty sequence renders the front, then the last
/// element.
proof fn lemma_render_elements_snoc(es: Seq<ElementView>)
    requires
        es.len() > 0,
    ensures
        render_elements(es) == render_elements(es.drop_last()) + render_element(es.last()),
{
    lemma_render_elements_concat(es.drop_last(), seq![es.last()]);
    assert(es.drop_last() + seq![es.last()] =~= es);
    lemma_render_elements_cons(es.last(), Seq::empty());
    assert(seq![es.last()] + Seq::<ElementView>::empty() =~= seq![es.last()]);
    assert(render_element(es.last()) + Seq::<char>::empty() =~= render_element(es.last()));
}

/// Law: serialization is the exact inverse of parsing. For any raw
/// text, serializing its parse restores the text character for
/// character.
pub proof fn lemma_serialize_parse(s: Seq<char>)
    ensures
        render_elements(parse_spec(s)) == s,
{
    lemma_render_parse_from(s, 0);
    assert(s.subrange(0, s.len() as int) =~= s);
}

/// Law: parsing is idempotent through serialization. Re-parsing the
/// serialized form of a parse yields the same elements.
pub proof fn lemma_parse_serialize_parse(s: Seq<char>)
    ensures
        parse_spec(render_elements(parse_spec(s))) == parse_spec(s),
{
    lemma_serialize_parse(s);
}

} // verus!
