//! The streaming content aggregator: one XHTML document's markup events
//! are reduced, in a single forward pass, to an ordered list of text spans
//! with an optional leading header.  Character data accumulates in a
//! buffer; closing a block element finalizes the buffer into a span unless
//! it is whitespace-only; the first closed header element becomes the
//! chapter header; text wrapped in an anchor element is discarded with the
//! anchor.

use vstd::prelude::*;

use crate::error::Error;
use crate::extract::ResourceInfo;
use crate::meta::{meta_vars_from_metadata, MetaVar};
use crate::text::{cut_at_last, is_blank, lemma_trim_blank, rfind_char, str_eq, trim_spec, trim_str};
use crate::xml::{
    char_from_u32, next_xml_event, reader_from_bytes, reader_pending_of, xml_tokenize_of,
    XmlEvent, XmlEventView,
};

verus! {

/// Simple representation of book chapter content.
#[derive(Debug)]
pub struct SimpleChapter {
    /// The document the content was read from.
    pub doc: String,
    /// Label in the table of contents, if any.
    pub label: String,
    /// First header in the document, if any.
    pub header: Option<String>,
    /// List of strings representing text content.
    pub content: Vec<String>,
}

/// The abstract value of a `SimpleChapter`.
#[verifier::ext_equal]
pub struct SimpleChapterView {
    pub doc: Seq<char>,
    pub label: Seq<char>,
    pub header: Option<Seq<char>>,
    pub content: Seq<Seq<char>>,
}

impl View for SimpleChapter {
    type V = SimpleChapterView;

    open spec fn view(&self) -> SimpleChapterView {
        SimpleChapterView {
            doc: self.doc@,
            label: self.label@,
            header: match self.header {
                Some(h) => Some(h@),
                None => None,
            },
            content: self.content.deep_view(),
        }
    }
}

/// Simple representation of book content broken down by chapter.
#[derive(Debug)]
pub struct SimpleBook {
    pub meta: Vec<(String, MetaVar)>,
    pub chapters: Vec<SimpleChapter>,
}

/// Simple aggregator for content in an XHTML document.
#[derive(Debug)]
pub struct SimpleAggregator {
    pub doc: String,
    pub label: String,
    pub first_header: Option<String>,
    pub spans: Vec<String>,
    pub current: String,
}

/// The abstract state of a `SimpleAggregator`.
#[verifier::ext_equal]
pub struct AggregatorView {
    pub doc: Seq<char>,
    pub label: Seq<char>,
    pub first_header: Option<Seq<char>>,
    pub spans: Seq<Seq<char>>,
    pub current: Seq<char>,
}

impl View for SimpleAggregator {
    type V = AggregatorView;

    open spec fn view(&self) -> AggregatorView {
        AggregatorView {
            doc: self.doc@,
            label: self.label@,
            first_header: match self.first_header {
                Some(h) => Some(h@),
                None => None,
            },
            spans: self.spans.deep_view(),
            current: self.current@,
        }
    }
}

/// The fresh aggregator state for one document.
pub open spec fn initial_state(doc: Seq<char>, label: Seq<char>) -> AggregatorView {
    AggregatorView {
        doc: doc,
        label: label,
        first_header: None,
        spans: Seq::empty(),
        current: Seq::empty(),
    }
}

/// Appending text to the in-progress buffer.
pub open spec fn push_str_spec(st: AggregatorView, text: Seq<char>) -> AggregatorView {
    AggregatorView { current: st.current + text, ..st }
}

/// Finalizing the buffer into a span: a whitespace-only buffer is kept as
/// it is and no span is emitted; anything else is trimmed, appended to the
/// span list, and the buffer resets.
pub open spec fn push_span_spec(st: AggregatorView) -> AggregatorView {
    if is_blank(st.current) {
        st
    } else {
        AggregatorView {
            spans: st.spans.push(trim_spec(st.current)),
            current: Seq::empty(),
            ..st
        }
    }
}

/// Closing a header element: the trimmed buffer becomes the first header
/// if none is recorded yet, and an ordinary span otherwise; the buffer
/// resets either way.
pub open spec fn push_header_spec(st: AggregatorView) -> AggregatorView {
    if st.first_header is None {
        AggregatorView {
            first_header: Some(trim_spec(st.current)),
            current: Seq::empty(),
            ..st
        }
    } else {
        AggregatorView {
            spans: st.spans.push(trim_spec(st.current)),
            current: Seq::empty(),
            ..st
        }
    }
}

impl SimpleAggregator {
    /// Create a new `SimpleAggregator`.
    pub fn new(doc: String, label: String) -> (r: Self)
        ensures
            r@ == initial_state(doc@, label@),
    {
        let r = Self {
            doc,
            label,
            first_header: None,
            spans: Vec::new(),
            current: String::new(),
        };
        proof {
            assert(r@ =~= initial_state(r.doc@, r.label@));
        }
        r
    }

    /// Push text into the current span.
    pub fn push_str(&mut self, text: &str)
        ensures
            final(self)@ == push_str_spec(old(self)@, text@),
    {
        self.current.append(text);
        proof {
            assert(self@ =~= push_str_spec(old(self)@, text@));
        }
    }

    /// Push the current span into the list of spans, and allocate a new
    /// 'current' span.
    pub fn push_span(&mut self)
        ensures
            final(self)@ == push_span_spec(old(self)@),
    {
        let trimmed = trim_str(self.current.as_str());
        proof {
            lemma_trim_blank(self.current@);
        }
        if trimmed.as_str().unicode_len() == 0 {
            return;
        }
        let ghost pre = self.spans.deep_view();
        self.spans.push(trimmed);
        self.current = String::new();
        proof {
            assert(self.spans.deep_view() =~= pre.push(trim_spec(old(self)@.current)));
            assert(self@ =~= push_span_spec(old(self)@));
        }
    }

    /// Push the current span into the list of spans, unless no
    /// 'first_header' exists, in which case set this as the first header.
    pub fn push_header(&mut self)
        ensures
            final(self)@ == push_header_spec(old(self)@),
    {
        let trimmed = trim_str(self.current.as_str());
        self.current = String::new();
        if self.first_header.is_none() {
            self.first_header = Some(trimmed);
            proof {
                assert(self@ =~= push_header_spec(old(self)@));
            }
        } else {
            let ghost pre = self.spans.deep_view();
            self.spans.push(trimmed);
            proof {
                assert(self.spans.deep_view() =~= pre.push(trim_spec(old(self)@.current)));
                assert(self@ =~= push_header_spec(old(self)@));
            }
        }
    }
}

/// The chapter an aggregator state finalizes into.
pub open spec fn chapter_of(st: AggregatorView) -> SimpleChapterView {
    SimpleChapterView { doc: st.doc, label: st.label, header: st.first_header, content: st.spans }
}

impl From<SimpleAggregator> for SimpleChapter {
    fn from(tra: SimpleAggregator) -> (r: Self) {
        SimpleChapter {
            doc: tra.doc,
            label: tra.label,
            header: tra.first_header,
            content: tra.spans,
        }
    }
}

impl vstd::std_specs::convert::FromSpecImpl<SimpleAggregator> for SimpleChapter {
    open spec fn obeys_from_spec() -> bool {
        true
    }

    open spec fn from_spec(tra: SimpleAggregator) -> Self {
        SimpleChapter {
            doc: tra.doc,
            label: tra.label,
            header: tra.first_header,
            content: tra.spans,
        }
    }
}

/// Span discard law: closing a block over a whitespace-only buffer emits
/// nothing, and in particular never an empty-string span; the state is
/// left exactly as it was.
pub proof fn lemma_span_discard(st: AggregatorView)
    requires
        is_blank(st.current),
    ensures
        push_span_spec(st) == st,
{
}

/// Every span that a block close emits is non-empty: a buffer that is not
/// whitespace-only trims to a non-empty span.
pub proof fn lemma_span_nonempty(st: AggregatorView)
    requires
        !is_blank(st.current),
    ensures
        push_span_spec(st).spans == st.spans.push(trim_spec(st.current)),
        trim_spec(st.current).len() > 0,
{
    lemma_trim_blank(st.current);
}

/// First-header-once law, first half: when no header is recorded yet, a
/// header close records the trimmed buffer as the header and emits no
/// span.
pub proof fn lemma_header_sets_first(st: AggregatorView)
    requires
        st.first_header is None,
    ensures
        push_header_spec(st).first_header == Some(trim_spec(st.current)),
        push_header_spec(st).spans == st.spans,
        push_header_spec(st).current == Seq::<char>::empty(),
{
}

/// First-header-once law, second half: once a header is recorded, every
/// further header close leaves it unchanged and appends the trimmed
/// buffer to the span list instead.
pub proof fn lemma_header_appends_after(st: AggregatorView)
    requires
        st.first_header is Some,
    ensures
        push_header_spec(st).first_header == st.first_header,
        push_header_spec(st).spans == st.spans.push(trim_spec(st.current)),
        push_header_spec(st).current == Seq::<char>::empty(),
{
}

/// A decimal digit.
pub open spec fn is_dec_digit(c: char) -> bool {
    0x30 <= c as u32 <= 0x39
}

/// The value of a decimal digit.
pub open spec fn dec_digit_val(c: char) -> int {
    c as u32 - 0x30
}

/// A hexadecimal digit, either case.
pub open spec fn is_hex_digit(c: char) -> bool {
    is_dec_digit(c) || (0x41 <= c as u32 <= 0x46) || (0x61 <= c as u32 <= 0x66)
}

/// The value of a hexadecimal digit.
pub open spec fn hex_digit_val(c: char) -> int {
    if is_dec_digit(c) {
        dec_digit_val(c)
    } else if 0x41 <= c as u32 <= 0x46 {
        c as u32 - 0x41 + 10
    } else {
        c as u32 - 0x61 + 10
    }
}

pub open spec fn all_dec_digits(s: Seq<char>) -> bool {
    forall|i: int| 0 <= i < s.len() ==> is_dec_digit(#[trigger] s[i])
}

pub open spec fn all_hex_digits(s: Seq<char>) -> bool {
    forall|i: int| 0 <= i < s.len() ==> is_hex_digit(#[trigger] s[i])
}

/// The number the decimal digit string denotes.
pub open spec fn dec_value(s: Seq<char>) -> int
    decreases s.len(),
{
    if s.len() == 0 {
        0
    } else {
        dec_value(s.drop_last()) * 10 + dec_digit_val(s.last())
    }
}

/// The number the hexadecimal digit string denotes.
pub open spec fn hex_value(s: Seq<char>) -> int
    decreases s.len(),
{
    if s.len() == 0 {
        0
    } else {
        hex_value(s.drop_last()) * 16 + hex_digit_val(s.last())
    }
}

/// A Unicode scalar value: a code that denotes a character.
pub open spec fn scalar_ok(v: int) -> bool {
    (0 <= v < 0xD800) || (0xE000 <= v <= 0x10FFFF)
}

/// The code of a character.
pub open spec fn char_code(c: char) -> int {
    c as int
}

/// The character with code `v`.
pub open spec fn char_with_code(v: int) -> char {
    choose|c: char| char_code(c) == v
}

/// The number a character reference body (what follows the `#`) denotes:
/// a hexadecimal number after `x` or `X`, a decimal number otherwise;
/// `None` when the digit string is empty or malformed.
pub open spec fn char_ref_value(body: Seq<char>) -> Option<int> {
    if body.len() > 0 && (body[0] == 'x' || body[0] == 'X') {
        let digits = body.drop_first();
        if digits.len() > 0 && all_hex_digits(digits) {
            Some(hex_value(digits))
        } else {
            None
        }
    } else {
        if body.len() > 0 && all_dec_digits(body) {
            Some(dec_value(body))
        } else {
            None
        }
    }
}

/// The replacement the first table entry with key `name` maps to: when a
/// caller-supplied table repeats a key, the earliest entry wins.  The
/// default table has no repeated keys.
pub open spec fn lookup_entity_spec(table: Seq<(Seq<char>, Seq<char>)>, name: Seq<char>) -> Option<
    Seq<char>,
>
    decreases table.len(),
{
    if table.len() == 0 {
        None
    } else if table[0].0 == name {
        Some(table[0].1)
    } else {
        lookup_entity_spec(table.drop_first(), name)
    }
}

/// What an entity or character reference named `name` decodes to: the five
/// predefined XML entities first, then character references, then the
/// custom substitution table; an unrecognized name decodes to nothing and
/// is a markup failure.
pub open spec fn resolve_entity_spec(table: Seq<(Seq<char>, Seq<char>)>, name: Seq<char>) -> Option<
    Seq<char>,
> {
    if name == "lt"@ {
        Some(seq!['<'])
    } else if name == "gt"@ {
        Some(seq!['>'])
    } else if name == "amp"@ {
        Some(seq!['&'])
    } else if name == "apos"@ {
        Some(seq!['\''])
    } else if name == "quot"@ {
        Some(seq!['"'])
    } else if name.len() > 0 && name[0] == '#' {
        match char_ref_value(name.drop_first()) {
            Some(v) => if scalar_ok(v) {
                Some(seq![char_with_code(v)])
            } else {
                None
            },
            None => None,
        }
    } else {
        lookup_entity_spec(table, name)
    }
}

/// Looks `name` up in the substitution table, first match wins.
fn lookup_entity(table: &Vec<(String, String)>, name: &str) -> (r: Option<String>)
    ensures
        r is Some <==> lookup_entity_spec(table.deep_view(), name@) is Some,
        r matches Some(s) ==> lookup_entity_spec(table.deep_view(), name@) == Some(s@),
{
    let ghost dv = table.deep_view();
    proof {
        assert(dv.subrange(0, dv.len() as int) =~= dv);
    }
    let mut k: usize = 0;
    while k < table.len()
        invariant
            0 <= k <= dv.len(),
            dv == table.deep_view(),
            dv.len() == table@.len(),
            lookup_entity_spec(dv, name@) == lookup_entity_spec(
                dv.subrange(k as int, dv.len() as int),
                name@,
            ),
        decreases dv.len() - k,
    {
        let ghost rest = dv.subrange(k as int, dv.len() as int);
        proof {
            assert(rest[0] == dv[k as int]);
            assert(rest.drop_first() =~= dv.subrange(k + 1, dv.len() as int));
            assert(dv[k as int] == (table@[k as int].0@, table@[k as int].1@));
        }
        let pair = &table[k];
        if str_eq(pair.0.as_str(), name) {
            return Some(pair.1.clone());
        }
        k += 1;
    }
    proof {
        assert(dv.subrange(dv.len() as int, dv.len() as int) =~= Seq::<(Seq<char>, Seq<
            char,
        >)>::empty());
    }
    None
}

/// Decodes one entity or character reference, or reports that the name is
/// not recognized.
fn resolve_entity(table: &Vec<(String, String)>, name: &str) -> (r: Option<String>)
    ensures
        r is Some <==> resolve_entity_spec(table.deep_view(), name@) is Some,
        r matches Some(s) ==> resolve_entity_spec(table.deep_view(), name@) == Some(s@),
{
    if str_eq(name, "lt") {
        let mut s = String::new();
        crate::text::push_char(&mut s, '<');
        proof {
            assert(s@ =~= seq!['<']);
        }
        return Some(s);
    }
    if str_eq(name, "gt") {
        let mut s = String::new();
        crate::text::push_char(&mut s, '>');
        proof {
            assert(s@ =~= seq!['>']);
        }
        return Some(s);
    }
    if str_eq(name, "amp") {
        let mut s = String::new();
        crate::text::push_char(&mut s, '&');
        proof {
            assert(s@ =~= seq!['&']);
        }
        return Some(s);
    }
    if str_eq(name, "apos") {
        let mut s = String::new();
        crate::text::push_char(&mut s, '\'');
        proof {
            assert(s@ =~= seq!['\'']);
        }
        return Some(s);
    }
    if str_eq(name, "quot") {
        let mut s = String::new();
        crate::text::push_char(&mut s, '"');
        proof {
            assert(s@ =~= seq!['"']);
        }
        return Some(s);
    }
    let n = name.unicode_len();
    if n > 0 && name.get_char(0) == '#' {
        resolve_char_ref(name)
    } else {
        lookup_entity(table, name)
    }
}

/// Decodes a character reference `#...`: `name` starts with `#`.
fn resolve_char_ref(name: &str) -> (r: Option<String>)
    requires
        name@.len() > 0,
        name@[0] == '#',
        name@ != "lt"@,
        name@ != "gt"@,
        name@ != "amp"@,
        name@ != "apos"@,
        name@ != "quot"@,
    ensures
        ({
            let spec_r = match char_ref_value(name@.drop_first()) {
                Some(v) => if scalar_ok(v) {
                    Some(seq![char_with_code(v)])
                } else {
                    None::<Seq<char>>
                },
                None => None,
            };
            match r {
                Some(s) => spec_r == Some(s@),
                None => spec_r is None,
            }
        }),
{
    let n = name.unicode_len();
    let ghost body = name@.drop_first();
    let hex = if n >= 2 {
        let c1 = name.get_char(1);
        c1 == 'x' || c1 == 'X'
    } else {
        false
    };
    let start: usize = if hex {
        2
    } else {
        1
    };
    let ghost digits = name@.subrange(start as int, n as int);
    proof {
        assert(body =~= name@.subrange(1, n as int));
        if hex {
            assert(body[0] == 'x' || body[0] == 'X');
            assert(body.drop_first() =~= digits);
        } else {
            assert(body =~= digits);
        }
    }
    if start >= n {
        return None;
    }
    proof {
        if hex {
            assert(digits == body.drop_first());
        } else {
            assert(digits == body);
        }
    }
    let mut i: usize = start;
    let mut value: u32 = 0;
    let mut over: bool = false;
    while i < n
        invariant
            start <= i <= n,
            n == name@.len(),
            start == 1 || start == 2,
            start < n,
            body == name@.drop_first(),
            digits == name@.subrange(start as int, n as int),
            digits.len() == n - start,
            hex ==> body.len() > 0 && (body[0] == 'x' || body[0] == 'X') && digits
                == body.drop_first(),
            !hex ==> digits == body && !(body.len() > 0 && (body[0] == 'x' || body[0] == 'X')),
            hex ==> forall|j: int|
                start <= j < i ==> is_hex_digit(#[trigger] name@[j]),
            !hex ==> forall|j: int|
                start <= j < i ==> is_dec_digit(#[trigger] name@[j]),
            ({
                let pv = if hex {
                    hex_value(name@.subrange(start as int, i as int))
                } else {
                    dec_value(name@.subrange(start as int, i as int))
                };
                (!over ==> value == pv && value <= 0x10FFFF) && (over ==> pv > 0x10FFFF)
            }),
        decreases n - i,
    {
        let ghost processed = name@.subrange(start as int, i as int);
        let ghost pv = if hex {
            hex_value(processed)
        } else {
            dec_value(processed)
        };
        let c = name.get_char(i);
        let u = c as u32;
        let d: u32 = if hex {
            if 0x30 <= u && u <= 0x39 {
                u - 0x30
            } else if 0x41 <= u && u <= 0x46 {
                u - 0x41 + 10
            } else if 0x61 <= u && u <= 0x66 {
                u - 0x61 + 10
            } else {
                proof {
                    assert(digits[i - start] == c);
                    assert(!all_hex_digits(digits));
                }
                return None;
            }
        } else {
            if 0x30 <= u && u <= 0x39 {
                u - 0x30
            } else {
                proof {
                    assert(digits[i - start] == c);
                    assert(!all_dec_digits(digits));
                }
                return None;
            }
        };
        proof {
            let processed2 = name@.subrange(start as int, i + 1);
            assert(processed2.drop_last() =~= processed);
            assert(processed2.last() == c);
            if hex {
                assert(hex_value(processed2) == pv * 16 + hex_digit_val(c));
                assert(hex_digit_val(c) == d);
            } else {
                assert(dec_value(processed2) == pv * 10 + dec_digit_val(c));
                assert(dec_digit_val(c) == d);
            }
        }
        if over {
            proof {
                let b: int = if hex {
                    16
                } else {
                    10
                };
                assert(pv * b + d > 0x10FFFF) by (nonlinear_arith)
                    requires
                        pv > 0x10FFFF,
                        b == 10 || b == 16,
                        d >= 0,
                ;
            }
        } else {
            let candidate: u32 = if hex {
                value * 16 + d
            } else {
                value * 10 + d
            };
            if candidate > 0x10FFFF {
                over = true;
            }
            value = candidate;
        }
        i += 1;
    }
    proof {
        assert(name@.subrange(start as int, n as int) == digits);
    }
    if over {
        return None;
    }
    match char_from_u32(value) {
        Some(c) => {
            let mut s = String::new();
            crate::text::push_char(&mut s, c);
            proof {
                assert(s@ =~= seq![c]);
                let v: int = value as int;
                assert(char_code(c) == v);
                let c2 = char_with_code(v);
                assert(char_code(c2) == v) by {
                    assert(exists|x: char| char_code(x) == v) by {
                        assert(char_code(c) == v);
                    }
                }
                assert(c2 == c);
                assert(seq![c2] =~= s@);
            }
            Some(s)
        },
        None => {
            proof {
                assert(!scalar_ok(value as int));
            }
            None
        },
    }
}


/// The three states of the streaming pass: before the end of `head`,
/// inside the body, and consuming an anchor element.
#[derive(Debug, Clone, Copy)]
pub enum Phase {
    Head,
    Body,
    Anchor,
}

/// A block element whose close finalizes the current span.
pub open spec fn is_block_name(n: Seq<char>) -> bool {
    n == "div"@ || n == "section"@ || n == "p"@
}

/// A header element.
pub open spec fn is_header_name(n: Seq<char>) -> bool {
    n == "h1"@ || n == "h2"@ || n == "h3"@ || n == "h4"@ || n == "h5"@ || n == "h6"@
}

/// One transition of the streaming pass: how one markup event changes the
/// phase and the aggregator state.  `None` is the one failure: an entity
/// reference in the body that decodes to nothing.
pub open spec fn step_spec(
    table: Seq<(Seq<char>, Seq<char>)>,
    ph: Phase,
    st: AggregatorView,
    ev: XmlEventView,
) -> Option<(Phase, AggregatorView)> {
    match ph {
        Phase::Head => match ev {
            XmlEventView::End(n) => if n == "head"@ {
                Some((Phase::Body, st))
            } else {
                Some((Phase::Head, st))
            },
            _ => Some((Phase::Head, st)),
        },
        Phase::Body => match ev {
            XmlEventView::Text(t) => Some((Phase::Body, push_str_spec(st, t))),
            XmlEventView::EntityRef(nm) => match resolve_entity_spec(table, nm) {
                Some(v) => Some((Phase::Body, push_str_spec(st, v))),
                None => None,
            },
            XmlEventView::Start(n) => if n == "a"@ {
                Some((Phase::Anchor, st))
            } else {
                Some((Phase::Body, st))
            },
            XmlEventView::End(n) => if is_block_name(n) {
                Some((Phase::Body, push_span_spec(st)))
            } else if is_header_name(n) {
                Some((Phase::Body, push_header_spec(st)))
            } else {
                Some((Phase::Body, st))
            },
            XmlEventView::Empty(n) => if n == "br"@ {
                Some((Phase::Body, push_str_spec(st, seq!['\n'])))
            } else {
                Some((Phase::Body, st))
            },
            _ => Some((Phase::Body, st)),
        },
        Phase::Anchor => match ev {
            XmlEventView::End(n) => if n == "a"@ {
                Some((Phase::Body, st))
            } else {
                Some((Phase::Anchor, st))
            },
            _ => Some((Phase::Anchor, st)),
        },
    }
}

/// The streaming pass folded over a whole event sequence.
pub open spec fn run_spec(
    table: Seq<(Seq<char>, Seq<char>)>,
    ph: Phase,
    st: AggregatorView,
    evs: Seq<XmlEventView>,
) -> Option<(Phase, AggregatorView)>
    decreases evs.len(),
{
    if evs.len() == 0 {
        Some((ph, st))
    } else {
        match step_spec(table, ph, st, evs[0]) {
            Some(p) => run_spec(table, p.0, p.1, evs.drop_first()),
            None => None,
        }
    }
}

/// What aggregating one document's markup events yields: the chapter the
/// final state finalizes into, or nothing when an entity reference in the
/// body cannot be decoded.
pub open spec fn aggregate_spec(
    doc: Seq<char>,
    label: Seq<char>,
    table: Seq<(Seq<char>, Seq<char>)>,
    evs: Seq<XmlEventView>,
) -> Option<SimpleChapterView> {
    match run_spec(table, Phase::Head, initial_state(doc, label), evs) {
        Some(p) => Some(chapter_of(p.1)),
        None => None,
    }
}

/// First-header-once law over a whole document: once a header is
/// recorded, no later markup event changes it.  Together with
/// `lemma_header_sets_first` this pins the header to the first header
/// close of the document.
pub proof fn lemma_header_persists(
    table: Seq<(Seq<char>, Seq<char>)>,
    ph: Phase,
    st: AggregatorView,
    evs: Seq<XmlEventView>,
)
    requires
        st.first_header is Some,
    ensures
        run_spec(table, ph, st, evs) matches Some(p) ==> p.1.first_header == st.first_header,
    decreases evs.len(),
{
    if evs.len() > 0 {
        match step_spec(table, ph, st, evs[0]) {
            Some(p) => {
                assert(p.1.first_header == st.first_header);
                lemma_header_persists(table, p.0, p.1, evs.drop_first());
            },
            None => {},
        }
    }
}

/// Reduce one document's markup events to a chapter, in one forward pass.
pub fn aggregate_document(
    doc: String,
    label: String,
    events: &Vec<XmlEvent>,
    custom_entities: &Vec<(String, String)>,
) -> (r: Result<SimpleChapter, Error>)
    ensures
        r is Ok <==> aggregate_spec(
            doc@,
            label@,
            custom_entities.deep_view(),
            events.deep_view(),
        ) is Some,
        r matches Ok(ch) ==> Some(ch@) == aggregate_spec(
            doc@,
            label@,
            custom_entities.deep_view(),
            events.deep_view(),
        ) && ch.doc@ == doc@ && ch.label@ == label@,
        r matches Err(e) ==> e matches Error::Markup { doc: d, label: l, detail: _ } && d@
            == doc@ && l@ == label@,
{
    let ghost table = custom_entities.deep_view();
    let ghost evs = events.deep_view();
    let ghost doc0 = doc@;
    let ghost label0 = label@;
    let mut agg = SimpleAggregator::new(doc, label);
    let mut phase = Phase::Head;
    proof {
        assert(evs.subrange(0, evs.len() as int) =~= evs);
    }
    let mut i: usize = 0;
    while i < events.len()
        invariant
            0 <= i <= evs.len(),
            evs == events.deep_view(),
            evs.len() == events@.len(),
            table == custom_entities.deep_view(),
            doc0 == doc@,
            label0 == label@,
            agg@.doc == doc0,
            agg@.label == label0,
            run_spec(table, Phase::Head, initial_state(doc0, label0), evs) == run_spec(
                table,
                phase,
                agg@,
                evs.subrange(i as int, evs.len() as int),
            ),
        decreases evs.len() - i,
    {
        let ghost rest = evs.subrange(i as int, evs.len() as int);
        let ghost ph0 = phase;
        let ghost st0 = agg@;
        proof {
            assert(rest[0] == evs[i as int]);
            assert(events@[i as int]@ == evs[i as int]);
            assert(rest.drop_first() =~= evs.subrange(i + 1, evs.len() as int));
            reveal_strlit("\n");
            assert(("\n")@ =~= seq!['\n']);
        }
        let ev = &events[i];
        match phase {
            Phase::Head => {
                if let XmlEvent::End(n) = ev {
                    if str_eq(n.as_str(), "head") {
                        phase = Phase::Body;
                    }
                }
            },
            Phase::Body => match ev {
                XmlEvent::Text(t) => {
                    agg.push_str(t.as_str());
                },
                XmlEvent::EntityRef(nm) => {
                    match resolve_entity(custom_entities, nm.as_str()) {
                        Some(val) => {
                            agg.push_str(val.as_str());
                        },
                        None => {
                            proof {
                                assert(step_spec(table, ph0, st0, rest[0]) is None);
                                assert(run_spec(table, ph0, st0, rest) is None);
                            }
                            let detail = "unrecognized entity: ".to_owned().concat(nm.as_str());
                            return Err(
                                Error::Markup { doc: agg.doc, label: agg.label, detail },
                            );
                        },
                    }
                },
                XmlEvent::Start(n) => {
                    if str_eq(n.as_str(), "a") {
                        phase = Phase::Anchor;
                    }
                },
                XmlEvent::End(n) => {
                    if str_eq(n.as_str(), "div") || str_eq(n.as_str(), "section") || str_eq(
                        n.as_str(),
                        "p",
                    ) {
                        agg.push_span();
                    } else if str_eq(n.as_str(), "h1") || str_eq(n.as_str(), "h2") || str_eq(
                        n.as_str(),
                        "h3",
                    ) || str_eq(n.as_str(), "h4") || str_eq(n.as_str(), "h5") || str_eq(
                        n.as_str(),
                        "h6",
                    ) {
                        agg.push_header();
                    }
                },
                XmlEvent::Empty(n) => {
                    if str_eq(n.as_str(), "br") {
                        agg.push_str("\n");
                    }
                },
                XmlEvent::Skip => {},
                XmlEvent::Eof => {},
            },
            Phase::Anchor => {
                if let XmlEvent::End(n) = ev {
                    if str_eq(n.as_str(), "a") {
                        phase = Phase::Body;
                    }
                }
            },
        }
        proof {
            assert(step_spec(table, ph0, st0, rest[0]) == Some((phase, agg@)));
        }
        i += 1;
    }
    proof {
        assert(evs.subrange(evs.len() as int, evs.len() as int) =~= Seq::<XmlEventView>::empty());
    }
    let ch = SimpleChapter::from(agg);
    proof {
        assert(ch@ =~= chapter_of(agg@));
    }
    Ok(ch)
}


/// The resource's path with any `#fragment` suffix removed: the identity
/// under which a document is fetched and deduplicated.  The value stored
/// in the record keeps its fragment.
pub fn unhash_path(item: &ResourceInfo) -> (r: String)
    ensures
        r@ == cut_at_last(item.path@, '#'),
{
    match rfind_char(item.path.as_str(), '#') {
        Some(idx) => item.path.as_str().substring_char(0, idx).to_owned(),
        None => item.path.clone(),
    }
}

/// The default custom entity substitutions for unencoding ebook text.
pub open spec fn default_entities_spec() -> Seq<(Seq<char>, Seq<char>)> {
    seq![
        ("nbsp"@, ""@),
        ("mdash"@, "\u{2014}"@),
        ("ndash"@, "\u{2013}"@),
        ("iquest"@, "\u{bf}"@),
        ("lsquo"@, "\u{2018}"@),
        ("rsquo"@, "\u{2019}"@),
        ("middot"@, "\u{b7}"@),
        ("shy"@, "-"@),
        ("eacute"@, "\u{e9}"@),
        ("acirc"@, "\u{e2}"@),
        ("auml"@, "\u{e4}"@),
        ("ldquo"@, "\u{201c}"@),
        ("rdquo"@, "\u{201d}"@),
        ("Eacute"@, "\u{c9}"@),
    ]
}

/// Get the default custom entities for unencoding ebook text.
pub fn default_custom_entities() -> (r: Vec<(String, String)>)
    ensures
        r.deep_view() == default_entities_spec(),
{
    let mut r: Vec<(String, String)> = Vec::new();
    r.push(("nbsp".to_owned(), "".to_owned()));
    r.push(("mdash".to_owned(), "\u{2014}".to_owned()));
    r.push(("ndash".to_owned(), "\u{2013}".to_owned()));
    r.push(("iquest".to_owned(), "\u{bf}".to_owned()));
    r.push(("lsquo".to_owned(), "\u{2018}".to_owned()));
    r.push(("rsquo".to_owned(), "\u{2019}".to_owned()));
    r.push(("middot".to_owned(), "\u{b7}".to_owned()));
    r.push(("shy".to_owned(), "-".to_owned()));
    r.push(("eacute".to_owned(), "\u{e9}".to_owned()));
    r.push(("acirc".to_owned(), "\u{e2}".to_owned()));
    r.push(("auml".to_owned(), "\u{e4}".to_owned()));
    r.push(("ldquo".to_owned(), "\u{201c}".to_owned()));
    r.push(("rdquo".to_owned(), "\u{201d}".to_owned()));
    r.push(("Eacute".to_owned(), "\u{c9}".to_owned()));
    proof {
        assert(r.deep_view() =~= default_entities_spec());
    }
    r
}

/// What reducing one document's bytes yields: the streaming pass folded
/// over the tokenization of the bytes, provided the tokenizer reaches the
/// end of the input.
pub open spec fn read_content_spec(
    doc: Seq<char>,
    label: Seq<char>,
    table: Seq<(Seq<char>, Seq<char>)>,
    data: Seq<u8>,
) -> Option<SimpleChapterView> {
    if xml_tokenize_of(data).1 is None {
        aggregate_spec(doc, label, table, xml_tokenize_of(data).0)
    } else {
        None
    }
}

/// Read an individual XHTML document, extracting text to produce a
/// SimpleChapter.  The reader is asked for one event at a time until it
/// reports the end of the input; a byte sequence the tokenizer cannot
/// interpret, and an entity in the body that the substitution table does
/// not cover, are the markup failures, each attributed to this document.
pub fn read_content_simple(
    doc: String,
    label: String,
    data: Vec<u8>,
    custom_entities: &Vec<(String, String)>,
) -> (r: Result<SimpleChapter, Error>)
    ensures
        r is Ok <==> read_content_spec(doc@, label@, custom_entities.deep_view(), data@)
            is Some,
        r matches Ok(ch) ==> Some(ch@) == read_content_spec(
            doc@,
            label@,
            custom_entities.deep_view(),
            data@,
        ) && ch.doc@ == doc@ && ch.label@ == label@,
        r matches Err(e) ==> e matches Error::Markup { doc: d, label: l, detail: _ } && d@
            == doc@ && l@ == label@,
{
    let ghost stream = xml_tokenize_of(data@);
    let mut rdr = reader_from_bytes(data);
    let mut events: Vec<XmlEvent> = Vec::new();
    let mut finished = false;
    let ghost mut k: int = 0;
    while !finished
        invariant
            stream == xml_tokenize_of(data@),
            0 <= k <= stream.0.len(),
            events.deep_view() == stream.0.subrange(0, k),
            events@.len() == k,
            !finished ==> reader_pending_of(rdr) == (
                stream.0.subrange(k, stream.0.len() as int),
                stream.1,
            ),
            finished ==> k == stream.0.len() && stream.1 is None,
        decreases stream.0.len() - k + (if finished {
            0int
        } else {
            1int
        }),
    {
        let ghost rest = stream.0.subrange(k, stream.0.len() as int);
        match next_xml_event(&mut rdr) {
            Err(detail) => {
                proof {
                    assert(rest.len() == 0);
                    assert(stream.1 is Some);
                }
                return Err(Error::Markup { doc, label, detail });
            },
            Ok(ev) => {
                if let XmlEvent::Eof = ev {
                    proof {
                        assert(rest.len() == 0);
                        assert(stream.1 is None);
                    }
                    finished = true;
                } else {
                    proof {
                        assert(rest.len() > 0);
                        assert(ev@ == rest[0]);
                        assert(rest[0] == stream.0[k]);
                        assert(rest.drop_first() =~= stream.0.subrange(
                            k + 1,
                            stream.0.len() as int,
                        ));
                    }
                    let ghost pre = events.deep_view();
                    events.push(ev);
                    proof {
                        assert(events.deep_view()[k] == events@[k]@);
                        assert forall|j: int| 0 <= j < pre.len() implies events.deep_view()[j]
                            == pre[j] by {}
                        k = k + 1;
                        assert(events.deep_view() =~= stream.0.subrange(0, k));
                    }
                }
            },
        }
    }
    proof {
        assert(stream.0.subrange(0, stream.0.len() as int) =~= stream.0);
    }
    aggregate_document(doc, label, &events, custom_entities)
}

/// One fetched candidate yields a chapter: its bytes are present, they
/// tokenize to the end of the input, and the streaming pass accepts the
/// events.
pub open spec fn chapter_passes(
    c: (ResourceInfo, Option<Vec<u8>>),
    table: Seq<(Seq<char>, Seq<char>)>,
) -> bool {
    c.1 matches Some(d) && read_content_spec(c.0.path@, c.0.label@, table, d@) is Some
}

/// Assemble a book from its metadata and the fetched bytes of each
/// candidate chapter, in candidate order: the book succeeds exactly when
/// every candidate's bytes are present and reduce to a chapter.  The
/// first candidate whose bytes are missing fails the whole book with a
/// `Resource` error naming it; the first whose markup cannot be reduced
/// fails it with a `Markup` error naming it.  No partial book is
/// returned.
pub fn transform_simple(
    metadata: &Vec<(String, Vec<String>)>,
    chapters: Vec<(ResourceInfo, Option<Vec<u8>>)>,
) -> (r: Result<SimpleBook, Error>)
    ensures
        r is Ok <==> (forall|i: int|
            0 <= i < chapters@.len() ==> chapter_passes(
                #[trigger] chapters@[i],
                default_entities_spec(),
            )),
        r matches Ok(b) ==> b.chapters@.len() == chapters@.len() && (forall|i: int|
            0 <= i < chapters@.len() ==> read_content_spec(
                (#[trigger] chapters@[i]).0.path@,
                chapters@[i].0.label@,
                default_entities_spec(),
                chapters@[i].1->0@,
            ) == Some(b.chapters@[i]@)) && b.meta@.len() == metadata@.len() && (forall|i: int|
            0 <= i < metadata@.len() ==> (#[trigger] b.meta@[i]).0@ == metadata@[i].0@
                && b.meta@[i].1@ == crate::meta::meta_var_of(metadata@[i].1.deep_view())),
        r matches Err(e) ==> exists|i: int|
            0 <= i < chapters@.len() && !chapter_passes(
                #[trigger] chapters@[i],
                default_entities_spec(),
            ) && (forall|j: int|
                0 <= j < i ==> chapter_passes(#[trigger] chapters@[j], default_entities_spec()))
                && if chapters@[i].1 is None {
                e matches Error::Resource { path: p, label: l } && p@ == chapters@[i].0.path@
                    && l@ == chapters@[i].0.label@
            } else {
                e matches Error::Markup { doc: d, label: l, detail: _ } && d@
                    == chapters@[i].0.path@ && l@ == chapters@[i].0.label@
            },
{
    let meta = meta_vars_from_metadata(metadata);
    let custom_entities = default_custom_entities();
    let mut out: Vec<SimpleChapter> = Vec::new();
    let mut i: usize = 0;
    while i < chapters.len()
        invariant
            0 <= i <= chapters@.len(),
            out@.len() == i,
            custom_entities.deep_view() == default_entities_spec(),
            forall|j: int|
                0 <= j < i ==> chapter_passes(#[trigger] chapters@[j], default_entities_spec()),
            forall|j: int|
                0 <= j < i ==> read_content_spec(
                    (#[trigger] chapters@[j]).0.path@,
                    chapters@[j].0.label@,
                    default_entities_spec(),
                    chapters@[j].1->0@,
                ) == Some(out@[j]@),
        decreases chapters@.len() - i,
    {
        let item = &chapters[i];
        match &item.1 {
            None => {
                proof {
                    assert(!chapter_passes(chapters@[i as int], default_entities_spec()));
                }
                return Err(
                    Error::Resource { path: item.0.path_as_string(), label: item.0.label.clone() },
                );
            },
            Some(data) => {
                match read_content_simple(
                    item.0.path_as_string(),
                    item.0.label.clone(),
                    data.clone(),
                    &custom_entities,
                ) {
                    Ok(ch) => {
                        proof {
                            assert(chapters@[i as int].1->0@ == data@);
                        }
                        out.push(ch);
                    },
                    Err(e) => {
                        proof {
                            assert(chapters@[i as int].1->0@ == data@);
                            assert(!chapter_passes(chapters@[i as int], default_entities_spec()));
                        }
                        return Err(e);
                    },
                }
            },
        }
        i += 1;
    }
    Ok(SimpleBook { meta, chapters: out })
}


/// Every recorded span, and the recorded header, is its own trim.
pub open spec fn state_trimmed(st: AggregatorView) -> bool {
    (forall|i: int|
        0 <= i < st.spans.len() ==> #[trigger] st.spans[i] == trim_spec(st.spans[i])) && (
    st.first_header matches Some(h) ==> h == trim_spec(h))
}

proof fn lemma_push_span_trimmed(st: AggregatorView)
    requires
        state_trimmed(st),
    ensures
        state_trimmed(push_span_spec(st)),
{
    crate::text::lemma_trim_idempotent(st.current);
    let p = push_span_spec(st);
    assert forall|i: int| 0 <= i < p.spans.len() implies #[trigger] p.spans[i] == trim_spec(
        p.spans[i],
    ) by {
        if !is_blank(st.current) && i == p.spans.len() - 1 {
            assert(p.spans[i] == trim_spec(st.current));
        } else {
            assert(p.spans[i] == st.spans[i]);
        }
    }
}

proof fn lemma_push_header_trimmed(st: AggregatorView)
    requires
        state_trimmed(st),
    ensures
        state_trimmed(push_header_spec(st)),
{
    crate::text::lemma_trim_idempotent(st.current);
    let p = push_header_spec(st);
    assert forall|i: int| 0 <= i < p.spans.len() implies #[trigger] p.spans[i] == trim_spec(
        p.spans[i],
    ) by {
        if !(st.first_header is None) && i == p.spans.len() - 1 {
            assert(p.spans[i] == trim_spec(st.current));
        } else {
            assert(p.spans[i] == st.spans[i]);
        }
    }
}

proof fn lemma_step_keeps_trimmed(
    table: Seq<(Seq<char>, Seq<char>)>,
    ph: Phase,
    st: AggregatorView,
    ev: XmlEventView,
)
    requires
        state_trimmed(st),
    ensures
        step_spec(table, ph, st, ev) matches Some(p) ==> state_trimmed(p.1),
{
    lemma_push_span_trimmed(st);
    lemma_push_header_trimmed(st);
}

proof fn lemma_run_trimmed(
    table: Seq<(Seq<char>, Seq<char>)>,
    ph: Phase,
    st: AggregatorView,
    evs: Seq<XmlEventView>,
)
    requires
        state_trimmed(st),
    ensures
        run_spec(table, ph, st, evs) matches Some(p) ==> state_trimmed(p.1),
    decreases evs.len(),
{
    if evs.len() > 0 {
        lemma_step_keeps_trimmed(table, ph, st, evs[0]);
        match step_spec(table, ph, st, evs[0]) {
            Some(p) => {
                lemma_run_trimmed(table, p.0, p.1, evs.drop_first());
            },
            None => {},
        }
    }
}

/// Span discard law over a whole document: every span of an aggregated
/// chapter is its own trim, and so is the header when one was recorded;
/// in particular no span carries leading or trailing whitespace.
pub proof fn lemma_chapter_text_trimmed(
    doc: Seq<char>,
    label: Seq<char>,
    table: Seq<(Seq<char>, Seq<char>)>,
    evs: Seq<XmlEventView>,
)
    ensures
        aggregate_spec(doc, label, table, evs) matches Some(ch) ==> (forall|i: int|
            0 <= i < ch.content.len() ==> #[trigger] ch.content[i] == trim_spec(ch.content[i]))
            && (ch.header matches Some(h) ==> h == trim_spec(h)),
{
    let st0 = initial_state(doc, label);
    assert(state_trimmed(st0));
    lemma_run_trimmed(table, Phase::Head, st0, evs);
}

/// Span discard law at one block close: closing a `div`, `section` or `p`
/// either emits nothing (over a whitespace-only buffer) or emits exactly
/// one non-empty span; an empty-string span is never emitted.
pub proof fn lemma_block_close_nonempty(
    table: Seq<(Seq<char>, Seq<char>)>,
    st: AggregatorView,
    n: Seq<char>,
)
    requires
        is_block_name(n),
    ensures
        ({
            let p = step_spec(table, Phase::Body, st, XmlEventView::End(n));
            p matches Some(q) && (q.1.spans == st.spans || (q.1.spans == st.spans.push(
                trim_spec(st.current),
            ) && trim_spec(st.current).len() > 0))
        }),
{
    if !is_blank(st.current) {
        lemma_span_nonempty(st);
    }
}

/// Whether the streaming pass, started in `ph` at state `st`, meets a
/// header close while in the body and outside an anchor, over the course
/// of `evs`.
pub open spec fn header_close_in(
    table: Seq<(Seq<char>, Seq<char>)>,
    ph: Phase,
    st: AggregatorView,
    evs: Seq<XmlEventView>,
) -> bool
    decreases evs.len(),
{
    if evs.len() == 0 {
        false
    } else {
        match step_spec(table, ph, st, evs[0]) {
            None => false,
            Some(p) => (ph is Body && (evs[0] matches XmlEventView::End(n) && is_header_name(n)))
                || header_close_in(table, p.0, p.1, evs.drop_first()),
        }
    }
}

/// First-header-once law over a whole document, the other direction: a
/// header is recorded exactly when some header close occurs in the body,
/// outside anchors.  Which value it records is pinned per step by
/// `lemma_header_sets_first`, and that it never changes afterwards by
/// `lemma_header_persists`.
pub proof fn lemma_first_header_iff(
    table: Seq<(Seq<char>, Seq<char>)>,
    ph: Phase,
    st: AggregatorView,
    evs: Seq<XmlEventView>,
)
    requires
        st.first_header is None,
    ensures
        run_spec(table, ph, st, evs) matches Some(p) ==> (p.1.first_header is Some
            <==> header_close_in(table, ph, st, evs)),
    decreases evs.len(),
{
    if evs.len() > 0 {
        match step_spec(table, ph, st, evs[0]) {
            None => {},
            Some(p) => {
                let closes = ph is Body && (evs[0] matches XmlEventView::End(n)
                    && is_header_name(n));
                if closes {
                    reveal_strlit("div");
                    reveal_strlit("section");
                    reveal_strlit("p");
                    reveal_strlit("h1");
                    reveal_strlit("h2");
                    reveal_strlit("h3");
                    reveal_strlit("h4");
                    reveal_strlit("h5");
                    reveal_strlit("h6");
                    if let XmlEventView::End(n) = evs[0] {
                        assert(("div")@.len() == 3);
                        assert(("section")@.len() == 7);
                        assert(("p")@.len() == 1);
                        assert(("h1")@.len() == 2);
                        assert(("h2")@.len() == 2);
                        assert(("h3")@.len() == 2);
                        assert(("h4")@.len() == 2);
                        assert(("h5")@.len() == 2);
                        assert(("h6")@.len() == 2);
                        assert(is_header_name(n));
                        assert(n.len() == 2);
                        assert(!is_block_name(n));
                    }
                    assert(p.1.first_header is Some);
                    lemma_header_persists(table, p.0, p.1, evs.drop_first());
                } else {
                    assert(p.1.first_header is None);
                    lemma_first_header_iff(table, p.0, p.1, evs.drop_first());
                }
            },
        }
    }
}

} // verus!
