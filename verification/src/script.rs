//! The directive-language parser.  A document may embed script blocks
//! delimited by an opening marker that must declare the directive-language
//! type and a closing marker; between them stand directive calls of the form
//! `name(arg, ...)`.  Parsing turns a document into an ordered list of
//! operations whose byte spans are expressed in the coordinates of the
//! original document, are strictly ordered, and never overlap.
use core::ops::Range;
use vstd::prelude::*;
use crate::error::ParseError;

verus! {

/// What an operation does: fetch a resource (`GET`), delete a marker tag
/// from the output (`TAG`), or record an unrecognized directive (`ERR`),
/// which validation rejects before anything is dispatched.
#[derive(Debug)]
pub enum Opcode {
    GET,
    ERR,
    TAG,
}

/// One argument of a directive call.
#[derive(Debug)]
pub enum Arg {
    String(Vec<u8>),
    Num(i64),
    Symbol(Vec<u8>),
}

/// One parsed instruction: an opcode, the original-document byte span its
/// result replaces, and its arguments.
#[derive(Debug)]
pub struct Operation {
    pub opcode: Opcode,
    pub span: Range<usize>,
    pub args: Vec<Arg>,
}

impl Arg {
    /// The bytes of a string-literal argument.
    pub fn into_inner_string(&self) -> (r: Vec<u8>)
        requires
            self is String,
        ensures
            r@ == self->String_0@,
    {
        match self {
            Arg::String(s) => clone_bytes(s),
            _ => Vec::new(),
        }
    }

    /// The value of a numeric argument.
    pub fn into_inner_num(&self) -> (r: i64)
        requires
            self is Num,
        ensures
            r == self->Num_0,
    {
        match self {
            Arg::Num(n) => *n,
            _ => 0,
        }
    }

    /// The bytes of a symbol argument.
    pub fn into_inner_symbol(&self) -> (r: Vec<u8>)
        requires
            self is Symbol,
        ensures
            r@ == self->Symbol_0@,
    {
        match self {
            Arg::Symbol(s) => clone_bytes(s),
            _ => Vec::new(),
        }
    }
}

/// A byte-for-byte copy of a buffer.
pub fn clone_bytes(v: &Vec<u8>) -> (r: Vec<u8>)
    ensures
        r@ == v@,
{
    let mut r: Vec<u8> = Vec::new();
    let mut i: usize = 0;
    while i < v.len()
        invariant
            i <= v@.len(),
            r@ == v@.take(i as int),
        decreases v@.len() - i,
    {
        r.push(v[i]);
        proof {
            assert(v@.take(i + 1) =~= v@.take(i as int).push(v@[i as int]));
        }
        i = i + 1;
    }
    proof {
        assert(v@.take(v@.len() as int) =~= v@);
    }
    r
}

// Byte values the grammar is built from.
pub const LT: u8 = 60;  // `<`
pub const GT: u8 = 62;  // `>`
pub const SLASH: u8 = 47;  // `/`
pub const QUOTE: u8 = 34;  // `"`
pub const EQUALS: u8 = 61;  // `=`
pub const LPAREN: u8 = 40;  // `(`
pub const RPAREN: u8 = 41;  // `)`
pub const COMMA: u8 = 44;  // `,`
pub const MINUS: u8 = 45;  // `-`

/// The opening marker `<script` begins at position `i`.
pub open spec fn open_marker_at(s: Seq<u8>, i: int) -> bool {
    &&& 0 <= i
    &&& i + 7 <= s.len()
    &&& s[i] == 60  // `<`
    &&& s[i + 1] == 115  // `s`
    &&& s[i + 2] == 99  // `c`
    &&& s[i + 3] == 114  // `r`
    &&& s[i + 4] == 105  // `i`
    &&& s[i + 5] == 112  // `p`
    &&& s[i + 6] == 116  // `t`
}

/// The document holds at least one script-block opening marker.
pub open spec fn has_script_marker(s: Seq<u8>) -> bool {
    exists|i: int| open_marker_at(s, i)
}

/// A fetch directive call `get(` begins at position `i`.
pub open spec fn get_call_at(s: Seq<u8>, i: int) -> bool {
    &&& 0 <= i
    &&& i + 4 <= s.len()
    &&& s[i] == 103  // `g`
    &&& s[i + 1] == 101  // `e`
    &&& s[i + 2] == 116  // `t`
    &&& s[i + 3] == 40  // `(`
}

/// A byte of ASCII whitespace.
pub open spec fn is_ws(b: u8) -> bool {
    b == 32 || b == 9 || b == 10 || b == 13
}

/// A byte that may begin a name: a letter or `_`.
pub open spec fn is_name_start(b: u8) -> bool {
    (65 <= b <= 90) || (97 <= b <= 122) || b == 95
}

/// A byte that may continue a name: a letter, digit, `_` or `-`.
pub open spec fn is_name_byte(b: u8) -> bool {
    is_name_start(b) || (48 <= b <= 57) || b == 45
}

/// The closing marker `</script` begins at position `i`.
pub open spec fn close_marker_at(s: Seq<u8>, i: int) -> bool {
    &&& 0 <= i
    &&& i + 8 <= s.len()
    &&& s[i] == 60  // `<`
    &&& s[i + 1] == 47  // `/`
    &&& s[i + 2] == 115  // `s`
    &&& s[i + 3] == 99  // `c`
    &&& s[i + 4] == 114  // `r`
    &&& s[i + 5] == 105  // `i`
    &&& s[i + 6] == 112  // `p`
    &&& s[i + 7] == 116  // `t`
}

/// `b` is the first position at or after `a` holding no whitespace: all of
/// `[a, b)` is whitespace and `b` is not (or is the end).
pub open spec fn ws_gap(s: Seq<u8>, a: int, b: int) -> bool {
    &&& 0 <= a <= b <= s.len()
    &&& forall|j: int| a <= j < b ==> is_ws(s[j])
    &&& b < s.len() ==> !is_ws(s[b])
}

/// `[a, b)` is a maximal name: it starts with a name-start byte, holds only
/// name bytes, and cannot be extended.
pub open spec fn name_span(s: Seq<u8>, a: int, b: int) -> bool {
    &&& 0 <= a < b <= s.len()
    &&& is_name_start(s[a])
    &&& forall|j: int| a <= j < b ==> is_name_byte(s[j])
    &&& b < s.len() ==> !is_name_byte(s[b])
}

/// `q` and `c` are the opening quote and the first closing quote of a
/// string literal.
pub open spec fn quoted_span(s: Seq<u8>, q: int, c: int) -> bool {
    &&& 0 <= q < c < s.len()
    &&& s[q] == QUOTE
    &&& s[c] == QUOTE
    &&& forall|j: int| q < j < c ==> s[j] != QUOTE
}

proof fn lemma_ws_gap_unique(s: Seq<u8>, a: int, b1: int, b2: int)
    requires
        ws_gap(s, a, b1),
        ws_gap(s, a, b2),
    ensures
        b1 == b2,
{
    if b1 < b2 {
        assert(is_ws(s[b1]));
    }
    if b2 < b1 {
        assert(is_ws(s[b2]));
    }
}

proof fn lemma_name_span_unique(s: Seq<u8>, a: int, b1: int, b2: int)
    requires
        name_span(s, a, b1),
        name_span(s, a, b2),
    ensures
        b1 == b2,
{
    if b1 < b2 {
        assert(is_name_byte(s[b1]));
    }
    if b2 < b1 {
        assert(is_name_byte(s[b2]));
    }
}

proof fn lemma_quoted_unique(s: Seq<u8>, q: int, c1: int, c2: int)
    requires
        quoted_span(s, q, c1),
        quoted_span(s, q, c2),
    ensures
        c1 == c2,
{
    if c1 < c2 {
        assert(s[c1] != QUOTE);
    }
    if c2 < c1 {
        assert(s[c2] != QUOTE);
    }
}

/// One operation is well formed: its span is a non-empty range inside a
/// document of length `len`, a fetch carries exactly one string or symbol
/// argument, a marker deletion carries none, and nothing unrecognized
/// remains.
pub open spec fn op_wf(op: Operation, len: int) -> bool {
    &&& 0 <= op.span.start < op.span.end <= len
    &&& match op.opcode {
        Opcode::GET => op.args@.len() == 1 && (op.args@[0] is String || op.args@[0] is Symbol),
        Opcode::TAG => op.args@.len() == 0,
        Opcode::ERR => false,
    }
}

/// An operation list is well formed: every operation is, and their spans
/// are strictly ordered and disjoint.
pub open spec fn ops_wf(ops: Seq<Operation>, len: int) -> bool {
    &&& forall|i: int| 0 <= i < ops.len() ==> op_wf(#[trigger] ops[i], len)
    &&& forall|i: int, j: int|
        0 <= i < j < ops.len() ==> (#[trigger] ops[i]).span.end <= (#[trigger] ops[j]).span.start
}

/// The first opening marker at or after `from`, if any.
fn find_marker(text: &Vec<u8>, from: usize) -> (r: Option<usize>)
    requires
        from <= text@.len(),
    ensures
        match r {
            Some(j) => from <= j && open_marker_at(text@, j as int) && (forall|p: int|
                from <= p < j ==> !open_marker_at(text@, p)),
            None => forall|p: int| from <= p ==> !open_marker_at(text@, p),
        },
{
    let n = text.len();
    let mut p: usize = from;
    while p < n
        invariant
            from <= p <= n,
            n == text@.len(),
            forall|q: int| from <= q < p ==> !open_marker_at(text@, q),
        decreases n - p,
    {
        if n - p >= 7 && text[p] == LT && text[p + 1] == 115 && text[p + 2] == 99 && text[p + 3]
            == 114 && text[p + 4] == 105 && text[p + 5] == 112 && text[p + 6] == 116 {
            return Some(p);
        }
        p = p + 1;
    }
    None
}

/// The position of the first byte at or after `from` that is not ASCII
/// whitespace.
fn skip_ws(text: &Vec<u8>, from: usize) -> (r: usize)
    requires
        from <= text@.len(),
    ensures
        from <= r <= text@.len(),
        forall|p: int| from <= p < r ==> is_ws(text@[p]),
        r < text@.len() ==> !is_ws(text@[r as int]),
        ws_gap(text@, from as int, r as int),
{
    let n = text.len();
    let mut p: usize = from;
    while p < n
        invariant
            from <= p <= n,
            n == text@.len(),
            forall|q: int| from <= q < p ==> is_ws(text@[q]),
        decreases n - p,
    {
        let b = text[p];
        if !(b == 32 || b == 9 || b == 10 || b == 13) {
            return p;
        }
        p = p + 1;
    }
    n
}

/// The end of the name that begins at `from`, together with its bytes.
fn parse_name(text: &Vec<u8>, from: usize) -> (r: Option<(Vec<u8>, usize)>)
    requires
        from <= text@.len(),
    ensures
        match r {
            Some((name, e)) => {
                &&& from < e <= text@.len()
                &&& is_name_start(text@[from as int])
                &&& name@ == text@.subrange(from as int, e as int)
                &&& forall|p: int| from <= p < e ==> is_name_byte(text@[p])
                &&& (e < text@.len() ==> !is_name_byte(text@[e as int]))
                &&& name_span(text@, from as int, e as int)
            },
            None => from == text@.len() || !is_name_start(text@[from as int]),
        },
{
    let n = text.len();
    if from >= n {
        return None;
    }
    let b0 = text[from];
    if !((65 <= b0 && b0 <= 90) || (97 <= b0 && b0 <= 122) || b0 == 95) {
        return None;
    }
    let mut name: Vec<u8> = Vec::new();
    let mut p: usize = from;
    while p < n
        invariant
            from <= p <= n,
            n == text@.len(),
            is_name_start(text@[from as int]),
            name@ == text@.subrange(from as int, p as int),
            forall|q: int| from <= q < p ==> is_name_byte(text@[q]),
        decreases n - p,
    {
        let b = text[p];
        if !((65 <= b && b <= 90) || (97 <= b && b <= 122) || b == 95 || (48 <= b && b <= 57) || b
            == 45) {
            return Some((name, p));
        }
        name.push(b);
        proof {
            assert(text@.subrange(from as int, p + 1) =~= text@.subrange(from as int, p as int).push(
                text@[p as int],
            ));
        }
        p = p + 1;
    }
    Some((name, p))
}

/// The string literal whose opening quote stands at `from`: its inner bytes
/// and the position just past the closing quote.
fn parse_quoted(text: &Vec<u8>, from: usize) -> (r: Option<(Vec<u8>, usize)>)
    requires
        from < text@.len(),
        text@[from as int] == QUOTE,
    ensures
        match r {
            Some((v, e)) => {
                &&& from + 1 < e <= text@.len()
                &&& text@[e - 1] == QUOTE
                &&& v@ == text@.subrange(from + 1, e - 1)
                &&& forall|p: int| from < p < e - 1 ==> text@[p] != QUOTE
                &&& quoted_span(text@, from as int, e - 1)
            },
            None => forall|p: int| from < p < text@.len() ==> text@[p] != QUOTE,
        },
{
    let n = text.len();
    let mut v: Vec<u8> = Vec::new();
    let mut p: usize = from + 1;
    while p < n
        invariant
            from + 1 <= p <= n,
            n == text@.len(),
            text@[from as int] == QUOTE,
            v@ == text@.subrange(from + 1, p as int),
            forall|q: int| from < q < p ==> text@[q] != QUOTE,
        decreases n - p,
    {
        let b = text[p];
        if b == QUOTE {
            return Some((v, p + 1));
        }
        v.push(b);
        proof {
            assert(text@.subrange(from + 1, p + 1) =~= text@.subrange(from + 1, p as int).push(
                text@[p as int],
            ));
        }
        p = p + 1;
    }
    None
}

/// The numeric literal that begins at `from`: its value and end.  Returns
/// nothing when no digit follows, or when the value does not fit an `i64`.
fn parse_number(text: &Vec<u8>, from: usize) -> (r: Option<(i64, usize)>)
    requires
        from <= text@.len(),
    ensures
        match r {
            Some((v, e)) => from < e <= text@.len(),
            None => true,
        },
{
    let n = text.len();
    let mut p: usize = from;
    let mut negative: bool = false;
    if p < n && text[p] == MINUS {
        negative = true;
        p = p + 1;
    }
    if p >= n {
        return None;
    }
    let b0 = text[p];
    if !(48 <= b0 && b0 <= 57) {
        return None;
    }
    let mut value: i64 = (b0 - 48) as i64;
    p = p + 1;
    while p < n
        invariant
            from < p <= n,
            n == text@.len(),
            0 <= value,
        decreases n - p,
    {
        let b = text[p];
        if !(48 <= b && b <= 57) {
            break;
        }
        let d = (b - 48) as i64;
        if value > (i64::MAX - d) / 10 {
            return None;
        }
        value = value * 10 + d;
        p = p + 1;
    }
    if negative {
        Some((-value, p))
    } else {
        Some((value, p))
    }
}

/// The attribute pair that declares the directive-language type:
/// `type="sarascript"`.
pub open spec fn is_type_marker(name: Seq<u8>, value: Seq<u8>) -> bool {
    &&& name.len() == 4
    &&& name[0] == 116  // `t`
    &&& name[1] == 121  // `y`
    &&& name[2] == 112  // `p`
    &&& name[3] == 101  // `e`
    &&& value.len() == 10
    &&& value[0] == 115  // `s`
    &&& value[1] == 97  // `a`
    &&& value[2] == 114  // `r`
    &&& value[3] == 97  // `a`
    &&& value[4] == 115  // `s`
    &&& value[5] == 99  // `c`
    &&& value[6] == 114  // `r`
    &&& value[7] == 105  // `i`
    &&& value[8] == 112  // `p`
    &&& value[9] == 116  // `t`
}

/// The five positions of one attribute `name = "value"`: the name's span,
/// the `=`, and the value's two quotes.
pub ghost struct AttrSpan {
    pub name_start: int,
    pub name_end: int,
    pub eq: int,
    pub quote_open: int,
    pub quote_close: int,
}

/// An attribute stands at its positions: a maximal name, then `=` and an
/// opening quote each after optional whitespace, then the value up to the
/// first closing quote.
pub open spec fn attr_at(s: Seq<u8>, a: AttrSpan) -> bool {
    &&& name_span(s, a.name_start, a.name_end)
    &&& ws_gap(s, a.name_end, a.eq)
    &&& a.eq < s.len() && s[a.eq] == EQUALS
    &&& ws_gap(s, a.eq + 1, a.quote_open)
    &&& quoted_span(s, a.quote_open, a.quote_close)
}

/// The attribute spells the expected type declaration.
pub open spec fn attr_typed(s: Seq<u8>, a: AttrSpan) -> bool {
    is_type_marker(
        s.subrange(a.name_start, a.name_end),
        s.subrange(a.quote_open + 1, a.quote_close),
    )
}

/// Where scanning stands after `k` attributes of an opening tag at `j`:
/// right after the marker, or right after the `k`-th closing quote.
pub open spec fn attrs_pos(j: int, attrs: Seq<AttrSpan>, k: int) -> int {
    if k == 0 {
        j + 7
    } else {
        attrs[k - 1].quote_close + 1
    }
}

/// The attributes follow one another from the marker on, each after
/// optional whitespace.
pub open spec fn attr_chain(s: Seq<u8>, j: int, attrs: Seq<AttrSpan>) -> bool {
    forall|i: int|
        0 <= i < attrs.len() ==> ws_gap(s, attrs_pos(j, attrs, i), (#[trigger] attrs[i]).name_start)
            && attr_at(s, attrs[i])
}

/// A whole opening tag: the marker at `j`, its chain of attributes, and
/// the closing `>` just before `end`.
pub open spec fn opening_tag_at(s: Seq<u8>, j: int, attrs: Seq<AttrSpan>, end: int) -> bool {
    &&& open_marker_at(s, j)
    &&& attr_chain(s, j, attrs)
    &&& ws_gap(s, attrs_pos(j, attrs, attrs.len() as int), end - 1)
    &&& end - 1 < s.len() && s[end - 1] == GT
}

/// Some attribute of the tag declares the expected type.
pub open spec fn tag_typed(s: Seq<u8>, attrs: Seq<AttrSpan>) -> bool {
    exists|i: int| 0 <= i < attrs.len() && attr_typed(s, #[trigger] attrs[i])
}

/// Somewhere strictly inside `[lo, hi)` stand a name span and a quoted
/// value span spelling the expected type declaration.
pub open spec fn type_marker_within(s: Seq<u8>, lo: int, hi: int) -> bool {
    exists|ns: int, ne: int, vs: int, ve: int|
        {
            &&& lo < ns <= ne
            &&& ne < vs <= ve
            &&& ve < hi <= s.len()
            &&& #[trigger] is_type_marker(s.subrange(ns, ne), s.subrange(vs, ve))
            &&& s[vs - 1] == QUOTE
            &&& s[ve] == QUOTE
        }
}

/// Whether an attribute is the expected type declaration.
fn is_type_attr(name: &Vec<u8>, value: &Vec<u8>) -> (r: bool)
    ensures
        r == is_type_marker(name@, value@),
{
    name.len() == 4 && value.len() == 10 && name[0] == 116 && name[1] == 121 && name[2] == 112
        && name[3] == 101 && value[0] == 115 && value[1] == 97 && value[2] == 114 && value[3] == 97
        && value[4] == 115 && value[5] == 99 && value[6] == 114 && value[7] == 105 && value[8]
        == 112 && value[9] == 116
}

/// Parses the opening marker that begins at `j` up to its closing `>`.
/// Returns whether any attribute declared the expected directive-language
/// type, and the position just past the `>`.
#[verifier::rlimit(100)]
#[verifier::spinoff_prover]
fn parse_opening_tag(text: &Vec<u8>, j: usize) -> (r: Result<(bool, usize), ParseError>)
    requires
        open_marker_at(text@, j as int),
    ensures
        match r {
            Ok((typed, end)) => {
                &&& j + 7 < end <= text@.len()
                &&& (typed ==> type_marker_within(text@, j as int, end as int))
                &&& exists|attrs: Seq<AttrSpan>|
                    #[trigger] opening_tag_at(text@, j as int, attrs, end as int) && typed
                        == tag_typed(text@, attrs)
                &&& forall|attrs: Seq<AttrSpan>, e: int|
                    #[trigger] opening_tag_at(text@, j as int, attrs, e) ==> e == end as int
                        && typed == tag_typed(text@, attrs)
            },
            Err(pe) => pe == ParseError::MalformedTag && !(exists|attrs: Seq<AttrSpan>, e: int|
                #[trigger] opening_tag_at(text@, j as int, attrs, e)),
        },
{
    let n = text.len();
    let mut typed = false;
    let mut p: usize = j + 7;
    let ghost mut built: Seq<AttrSpan> = Seq::empty();
    loop
        invariant
            j + 7 <= p <= n,
            n == text@.len(),
            open_marker_at(text@, j as int),
            typed ==> type_marker_within(text@, j as int, p as int),
            attr_chain(text@, j as int, built),
            p as int == attrs_pos(j as int, built, built.len() as int),
            typed == tag_typed(text@, built),
            forall|attrs: Seq<AttrSpan>, e: int|
                #[trigger] opening_tag_at(text@, j as int, attrs, e) ==> built.len() <= attrs.len()
                    && (forall|i: int| 0 <= i < built.len() ==> attrs[i] == built[i]),
        decreases n - p,
    {
        let ghost p0 = p as int;
        p = skip_ws(text, p);
        proof {
            // Any complete tag structure agrees with what was scanned so
            // far, so the scan now stands at its next attribute's start or
            // at its closing `>`.
            assert forall|attrs: Seq<AttrSpan>, e: int|
                #[trigger] opening_tag_at(text@, j as int, attrs, e) implies {
                let k = built.len() as int;
                &&& (k < attrs.len() ==> p as int == attrs[k].name_start && attr_at(
                    text@,
                    attrs[k],
                ))
                &&& (k == attrs.len() ==> p as int == e - 1)
            } by {
                let k = built.len() as int;
                assert(attrs_pos(j as int, attrs, k) == p0) by {
                    if k > 0 {
                        assert(attrs[k - 1] == built[k - 1]);
                    }
                }
                if k < attrs.len() {
                    assert(ws_gap(text@, attrs_pos(j as int, attrs, k), attrs[k].name_start)
                        && attr_at(text@, attrs[k]));
                    lemma_ws_gap_unique(text@, p0, p as int, attrs[k].name_start);
                } else {
                    assert(ws_gap(text@, attrs_pos(j as int, attrs, k), e - 1));
                    lemma_ws_gap_unique(text@, p0, p as int, e - 1);
                }
            }
        }
        if p >= n {
            proof {
                assert forall|attrs: Seq<AttrSpan>, e: int|
                    !(#[trigger] opening_tag_at(text@, j as int, attrs, e)) by {
                    if opening_tag_at(text@, j as int, attrs, e) {
                        let k = built.len() as int;
                        if k < attrs.len() {
                            assert(name_span(text@, attrs[k].name_start, attrs[k].name_end));
                        }
                    }
                }
            }
            return Err(ParseError::MalformedTag);
        }
        if text[p] == GT {
            proof {
                assert(opening_tag_at(text@, j as int, built, p + 1));
                assert forall|attrs: Seq<AttrSpan>, e: int|
                    #[trigger] opening_tag_at(text@, j as int, attrs, e) implies e == p + 1
                        && typed == tag_typed(text@, attrs) by {
                    let k = built.len() as int;
                    if k < attrs.len() {
                        assert(is_name_start(text@[attrs[k].name_start]));
                        assert(false);
                    }
                    assert(attrs =~= built);
                }
            }
            return Ok((typed, p + 1));
        }
        match parse_name(text, p) {
            None => {
                proof {
                    assert forall|attrs: Seq<AttrSpan>, e: int|
                        !(#[trigger] opening_tag_at(text@, j as int, attrs, e)) by {
                        if opening_tag_at(text@, j as int, attrs, e) {
                            let k = built.len() as int;
                            if k < attrs.len() {
                                assert(is_name_start(text@[attrs[k].name_start]));
                            } else {
                                assert(text@[e - 1] == GT);
                            }
                        }
                    }
                }
                return Err(ParseError::MalformedTag);
            },
            Some((name, ne)) => {
                proof {
                    // A complete structure must continue with this very
                    // attribute: the name, `=` and quote positions are all
                    // forced.
                    assert forall|attrs: Seq<AttrSpan>, e: int|
                        #[trigger] opening_tag_at(text@, j as int, attrs, e) implies {
                        let k = built.len() as int;
                        k < attrs.len() && attrs[k].name_end == ne as int
                    } by {
                        let k = built.len() as int;
                        if k == attrs.len() {
                            assert(text@[e - 1] == GT);
                            assert(false);
                        }
                        lemma_name_span_unique(
                            text@,
                            p as int,
                            ne as int,
                            attrs[k].name_end,
                        );
                    }
                }
                let q = skip_ws(text, ne);
                if q >= n || text[q] != EQUALS {
                    proof {
                        assert forall|attrs: Seq<AttrSpan>, e: int|
                            !(#[trigger] opening_tag_at(text@, j as int, attrs, e)) by {
                            if opening_tag_at(text@, j as int, attrs, e) {
                                let k = built.len() as int;
                                lemma_ws_gap_unique(text@, ne as int, q as int, attrs[k].eq);
                            }
                        }
                    }
                    return Err(ParseError::MalformedTag);
                }
                let q2 = skip_ws(text, q + 1);
                proof {
                    assert forall|attrs: Seq<AttrSpan>, e: int|
                        #[trigger] opening_tag_at(text@, j as int, attrs, e) implies {
                        let k = built.len() as int;
                        attrs[k].eq == q as int && attrs[k].quote_open == q2 as int
                    } by {
                        let k = built.len() as int;
                        lemma_ws_gap_unique(text@, ne as int, q as int, attrs[k].eq);
                        lemma_ws_gap_unique(text@, q + 1, q2 as int, attrs[k].quote_open);
                    }
                }
                if q2 >= n || text[q2] != QUOTE {
                    proof {
                        assert forall|attrs: Seq<AttrSpan>, e: int|
                            !(#[trigger] opening_tag_at(text@, j as int, attrs, e)) by {
                            if opening_tag_at(text@, j as int, attrs, e) {
                                let k = built.len() as int;
                                assert(quoted_span(text@, q2 as int, attrs[k].quote_close));
                            }
                        }
                    }
                    return Err(ParseError::MalformedTag);
                }
                match parse_quoted(text, q2) {
                    None => {
                        proof {
                            assert forall|attrs: Seq<AttrSpan>, e: int|
                                !(#[trigger] opening_tag_at(text@, j as int, attrs, e)) by {
                                if opening_tag_at(text@, j as int, attrs, e) {
                                    let k = built.len() as int;
                                    assert(quoted_span(text@, q2 as int, attrs[k].quote_close));
                                    assert(text@[attrs[k].quote_close] != QUOTE);
                                }
                            }
                        }
                        return Err(ParseError::MalformedTag);
                    },
                    Some((value, q3)) => {
                        let ghost na = AttrSpan {
                            name_start: p as int,
                            name_end: ne as int,
                            eq: q as int,
                            quote_open: q2 as int,
                            quote_close: q3 - 1,
                        };
                        let it = is_type_attr(&name, &value);
                        proof {
                            assert(name@ == text@.subrange(p as int, ne as int));
                            assert(value@ == text@.subrange(q2 + 1, q3 - 1));
                            assert(it == attr_typed(text@, na));
                            assert(attr_at(text@, na));
                            let ghost prev = built;
                            built = built.push(na);
                            assert forall|i: int|
                                0 <= i < built.len() implies ws_gap(
                                text@,
                                attrs_pos(j as int, built, i),
                                (#[trigger] built[i]).name_start,
                            ) && attr_at(text@, built[i]) by {
                                if i < prev.len() {
                                    assert(built[i] == prev[i]);
                                    if i > 0 {
                                        assert(built[i - 1] == prev[i - 1]);
                                    }
                                } else {
                                    assert(built[i] == na);
                                    if i > 0 {
                                        assert(built[i - 1] == prev[i - 1]);
                                    }
                                }
                            }
                            if it {
                                assert(tag_typed(text@, built)) by {
                                    assert(built[built.len() - 1] == na);
                                }
                            }
                            assert((typed || it) == tag_typed(text@, built)) by {
                                if typed {
                                    let i0 = choose|i0: int|
                                        0 <= i0 < prev.len() && attr_typed(
                                            text@,
                                            #[trigger] prev[i0],
                                        );
                                    assert(built[i0] == prev[i0]);
                                }
                                if !typed && !it {
                                    if tag_typed(text@, built) {
                                        let i0 = choose|i0: int|
                                            0 <= i0 < built.len() && attr_typed(
                                                text@,
                                                #[trigger] built[i0],
                                            );
                                        if i0 < prev.len() {
                                            assert(prev[i0] == built[i0]);
                                        } else {
                                            assert(built[i0] == na);
                                        }
                                        assert(false);
                                    }
                                }
                            }
                            assert forall|attrs: Seq<AttrSpan>, e: int|
                                #[trigger] opening_tag_at(text@, j as int, attrs, e) implies built.len()
                                <= attrs.len() && (forall|i: int|
                                0 <= i < built.len() ==> attrs[i] == built[i]) by {
                                let k = prev.len() as int;
                                lemma_quoted_unique(
                                    text@,
                                    q2 as int,
                                    q3 - 1,
                                    attrs[k].quote_close,
                                );
                                assert(attrs[k] == na);
                                assert forall|i: int|
                                    0 <= i < built.len() implies attrs[i] == built[i] by {
                                    if i < k {
                                        assert(attrs[i] == prev[i]);
                                        assert(built[i] == prev[i]);
                                    } else {
                                        assert(built[i] == na);
                                    }
                                }
                            }
                        }
                        if it {
                            proof {
                                assert(is_type_marker(
                                    text@.subrange(p as int, ne as int),
                                    text@.subrange(q2 + 1, q3 - 1),
                                ));
                                assert(type_marker_within(text@, j as int, q3 as int));
                            }
                            typed = true;
                        }
                        p = q3;
                    },
                }
            },
        }
    }
}

/// The four positions of one well-formed fetch call `get( arg )`: the call
/// head's start, the argument's span, and the closing parenthesis.
pub ghost struct DirectiveSpan {
    pub start: int,
    pub arg_start: int,
    pub arg_end: int,
    pub close: int,
}

/// A well-formed fetch call stands at its positions: the head `get(`, then
/// exactly one string-literal or symbol argument and the closing
/// parenthesis, each after optional whitespace.
pub open spec fn directive_at(s: Seq<u8>, d: DirectiveSpan) -> bool {
    &&& get_call_at(s, d.start)
    &&& ws_gap(s, d.start + 4, d.arg_start)
    &&& (quoted_span(s, d.arg_start, d.arg_end - 1) || name_span(s, d.arg_start, d.arg_end))
    &&& ws_gap(s, d.arg_end, d.close)
    &&& d.close < s.len() && s[d.close] == RPAREN
}

/// The argument's bytes: a string literal's inner text, or the symbol
/// itself.
pub open spec fn directive_arg(s: Seq<u8>, d: DirectiveSpan) -> Seq<u8> {
    if s[d.arg_start] == QUOTE {
        s.subrange(d.arg_start + 1, d.arg_end - 1)
    } else {
        s.subrange(d.arg_start, d.arg_end)
    }
}

/// The bytes an argument value carries.
pub open spec fn arg_bytes(a: Arg) -> Seq<u8> {
    match a {
        Arg::String(v) => v@,
        Arg::Symbol(v) => v@,
        Arg::Num(_) => Seq::empty(),
    }
}

/// Parses one directive call `name(arg, ...)` that begins at `s` and
/// validates it: the name must be `get` and it must take exactly one string
/// or symbol argument.  The operation's span is the call's exact source
/// text, and the parse succeeds exactly when a well-formed call stands at
/// `s`.
fn parse_directive(text: &Vec<u8>, s: usize) -> (r: Result<(Operation, usize), ParseError>)
    requires
        s < text@.len(),
        is_name_start(text@[s as int]),
    ensures
        match r {
            Ok((op, e)) => {
                &&& s < e <= text@.len()
                &&& op.span.start == s
                &&& op.span.end == e
                &&& op_wf(op, text@.len() as int)
                &&& op.opcode is GET
                &&& get_call_at(text@, s as int)
                &&& text@[e - 1] == RPAREN
                &&& exists|d: DirectiveSpan|
                    #[trigger] directive_at(text@, d) && d.start == s as int && e as int == d.close
                        + 1 && arg_bytes(op.args@[0]) == directive_arg(text@, d) && ((op.args@[0]
                        is String) == (text@[d.arg_start] == QUOTE))
                &&& forall|d: DirectiveSpan|
                    #[trigger] directive_at(text@, d) && d.start == s as int ==> e as int == d.close
                        + 1
            },
            Err(pe) => !(exists|d: DirectiveSpan|
                #[trigger] directive_at(text@, d) && d.start == s as int),
        },
{
    let n = text.len();
    let (name, ne) = match parse_name(text, s) {
        Some(v) => v,
        None => {
            return Err(ParseError::MalformedDirective);
        },
    };
    if ne >= n || text[ne] != LPAREN {
        return Err(ParseError::MalformedDirective);
    }
    let is_get = name.len() == 3 && name[0] == 103 && name[1] == 101 && name[2] == 116;
    proof {
        assert(name@ == text@.subrange(s as int, ne as int));
        // A well-formed call forces the name to be exactly `get` followed by
        // the parenthesis.
        assert forall|d: DirectiveSpan|
            #[trigger] directive_at(text@, d) && d.start == s as int implies ne == s + 3
            && is_get by {
            assert(name_span(text@, s as int, s + 3)) by {
                assert(text@[s as int] == 103 && text@[s + 1] == 101 && text@[s + 2] == 116);
                assert(text@[s + 3] == 40);
            }
            lemma_name_span_unique(text@, s as int, ne as int, s + 3);
            assert(name@.len() == 3);
            assert(name@[0] == text@[s as int]);
            assert(name@[1] == text@[s + 1]);
            assert(name@[2] == text@[s + 2]);
        }
    }
    if !is_get {
        return Err(ParseError::UnknownDirective);
    }
    proof {
        assert(ne == s + 3);
        assert(text@[s as int] == name@[0]);
        assert(text@[s + 1] == name@[1]);
        assert(text@[s + 2] == name@[2]);
    }
    let mut args: Vec<Arg> = Vec::new();
    let mut p: usize = skip_ws(text, ne + 1);
    proof {
        assert forall|d: DirectiveSpan|
            #[trigger] directive_at(text@, d) && d.start == s as int implies p as int
            == d.arg_start by {
            lemma_ws_gap_unique(text@, s + 4, p as int, d.arg_start);
        }
    }
    if p < n && text[p] == RPAREN {
        proof {
            assert forall|d: DirectiveSpan|
                !(#[trigger] directive_at(text@, d) && d.start == s as int) by {
                if directive_at(text@, d) && d.start == s as int {
                    assert(text@[d.arg_start] == QUOTE || is_name_start(text@[d.arg_start]));
                }
            }
        }
        return Err(ParseError::BadArgument);
    }
    loop
        invariant
            s + 4 <= p <= n,
            n == text@.len(),
            get_call_at(text@, s as int),
            args@.len() == 0 ==> ws_gap(text@, s + 4, p as int),
            forall|d: DirectiveSpan|
                #[trigger] directive_at(text@, d) && d.start == s as int ==> args@.len() == 0
                    && p as int == d.arg_start,
        decreases n - p,
    {
        if p >= n {
            proof {
                assert forall|d: DirectiveSpan|
                    !(#[trigger] directive_at(text@, d) && d.start == s as int) by {
                    if directive_at(text@, d) && d.start == s as int {
                        assert(d.arg_start < n);
                    }
                }
            }
            return Err(ParseError::MalformedDirective);
        }
        let ghost arg_pos = p as int;
        let ghost had_none = args@.len() == 0;
        let b = text[p];
        let ghost mut arg_quoted = false;
        if b == QUOTE {
            proof {
                arg_quoted = true;
            }
            match parse_quoted(text, p) {
                None => {
                    proof {
                        assert forall|d: DirectiveSpan|
                            !(#[trigger] directive_at(text@, d) && d.start == s as int) by {
                            if directive_at(text@, d) && d.start == s as int {
                                assert(quoted_span(text@, d.arg_start, d.arg_end - 1)) by {
                                    if name_span(text@, d.arg_start, d.arg_end) {
                                        assert(is_name_start(QUOTE) == false);
                                    }
                                }
                                assert(text@[d.arg_end - 1] != QUOTE);
                            }
                        }
                    }
                    return Err(ParseError::BadArgument);
                },
                Some((v, e)) => {
                    proof {
                        assert forall|d: DirectiveSpan|
                            #[trigger] directive_at(text@, d) && d.start == s as int implies e as int
                            == d.arg_end by {
                            assert(quoted_span(text@, d.arg_start, d.arg_end - 1)) by {
                                if name_span(text@, d.arg_start, d.arg_end) {
                                    assert(is_name_start(QUOTE) == false);
                                }
                            }
                            lemma_quoted_unique(text@, p as int, e - 1, d.arg_end - 1);
                        }
                    }
                    args.push(Arg::String(v));
                    p = e;
                },
            }
        } else if (48 <= b && b <= 57) || b == MINUS {
            proof {
                // A well-formed call's argument starts with a quote or a
                // name byte, never a digit or minus.
                assert forall|d: DirectiveSpan|
                    !(#[trigger] directive_at(text@, d) && d.start == s as int) by {
                    if directive_at(text@, d) && d.start == s as int {
                        assert(text@[d.arg_start] == QUOTE || is_name_start(text@[d.arg_start]));
                    }
                }
            }
            match parse_number(text, p) {
                None => {
                    return Err(ParseError::BadArgument);
                },
                Some((v, e)) => {
                    args.push(Arg::Num(v));
                    p = e;
                },
            }
        } else if (65 <= b && b <= 90) || (97 <= b && b <= 122) || b == 95 {
            match parse_name(text, p) {
                None => {
                    proof {
                        assert(false);
                    }
                    return Err(ParseError::BadArgument);
                },
                Some((v, e)) => {
                    proof {
                        assert forall|d: DirectiveSpan|
                            #[trigger] directive_at(text@, d) && d.start == s as int implies e as int
                            == d.arg_end by {
                            assert(name_span(text@, d.arg_start, d.arg_end)) by {
                                if quoted_span(text@, d.arg_start, d.arg_end - 1) {
                                    assert(is_name_start(QUOTE) == false);
                                }
                            }
                            lemma_name_span_unique(text@, p as int, e as int, d.arg_end);
                        }
                    }
                    args.push(Arg::Symbol(v));
                    p = e;
                },
            }
        } else {
            proof {
                assert forall|d: DirectiveSpan|
                    !(#[trigger] directive_at(text@, d) && d.start == s as int) by {
                    if directive_at(text@, d) && d.start == s as int {
                        assert(text@[d.arg_start] == QUOTE || is_name_start(text@[d.arg_start]));
                    }
                }
            }
            return Err(ParseError::BadArgument);
        }
        let ghost arg_end_pos = p as int;
        p = skip_ws(text, p);
        proof {
            assert forall|d: DirectiveSpan|
                #[trigger] directive_at(text@, d) && d.start == s as int implies p as int
                == d.close by {
                lemma_ws_gap_unique(text@, arg_end_pos, p as int, d.close);
            }
        }
        if p >= n {
            return Err(ParseError::MalformedDirective);
        }
        if text[p] == RPAREN {
            if args.len() != 1 {
                return Err(ParseError::BadArgument);
            }
            let kind_ok = match &args[0] {
                Arg::String(_) => true,
                Arg::Symbol(_) => true,
                Arg::Num(_) => false,
            };
            if !kind_ok {
                return Err(ParseError::BadArgument);
            }
            proof {
                // The call just scanned is itself a well-formed directive.
                let d0 = DirectiveSpan {
                    start: s as int,
                    arg_start: arg_pos,
                    arg_end: arg_end_pos,
                    close: p as int,
                };
                assert(had_none);
                assert(directive_at(text@, d0));
                assert(arg_bytes(args@[0]) == directive_arg(text@, d0));
                assert((args@[0] is String) == (text@[d0.arg_start] == QUOTE)) by {
                    if !arg_quoted {
                        assert(is_name_start(text@[arg_pos]));
                    }
                }
                assert(directive_at(text@, d0) && d0.start == s as int && (p + 1) as int
                    == d0.close + 1 && arg_bytes(args@[0]) == directive_arg(text@, d0) && ((
                args@[0] is String) == (text@[d0.arg_start] == QUOTE)));
            }
            let op = Operation { opcode: Opcode::GET, span: s..(p + 1), args };
            return Ok((op, p + 1));
        }
        if text[p] == COMMA {
            proof {
                assert forall|d: DirectiveSpan|
                    !(#[trigger] directive_at(text@, d) && d.start == s as int) by {
                    if directive_at(text@, d) && d.start == s as int {
                        assert(text@[d.close] == RPAREN);
                    }
                }
            }
            p = skip_ws(text, p + 1);
        } else {
            return Err(ParseError::MalformedDirective);
        }
    }
}

/// One whole script block: its opening tag, its directive calls, and its
/// closing tag, with all their positions.
pub ghost struct BlockSpan {
    pub start: int,
    pub tag_end: int,
    pub close_start: int,
    pub end: int,
    pub attrs: Seq<AttrSpan>,
    pub dirs: Seq<DirectiveSpan>,
}

/// Where scanning stands after `k` directives of a block whose opening tag
/// ends at `tag_end`.
pub open spec fn dirs_pos(tag_end: int, dirs: Seq<DirectiveSpan>, k: int) -> int {
    if k == 0 {
        tag_end
    } else {
        dirs[k - 1].close + 1
    }
}

/// A well-formed typed block stands at its positions: a typed opening tag,
/// then its directive calls and the closing marker with its `>`, each after
/// optional whitespace.
#[verifier::opaque]
pub open spec fn block_at(s: Seq<u8>, b: BlockSpan) -> bool {
    &&& opening_tag_at(s, b.start, b.attrs, b.tag_end)
    &&& tag_typed(s, b.attrs)
    &&& forall|i: int|
        0 <= i < b.dirs.len() ==> ws_gap(s, dirs_pos(b.tag_end, b.dirs, i), (#[trigger] b.dirs[i]).start)
            && directive_at(s, b.dirs[i])
    &&& ws_gap(s, dirs_pos(b.tag_end, b.dirs, b.dirs.len() as int), b.close_start)
    &&& close_marker_at(s, b.close_start)
    &&& ws_gap(s, b.close_start + 8, b.end - 1)
    &&& b.end - 1 < s.len() && s[b.end - 1] == GT
}

/// The operations one block contributes, in order: a deletion of its
/// opening tag, one fetch per directive call at the call's exact span with
/// the call's argument bytes, and a deletion of its closing tag.
pub open spec fn ops_match_block(s: Seq<u8>, ops: Seq<Operation>, b: BlockSpan) -> bool {
    &&& ops.len() == b.dirs.len() + 2
    &&& ops[0].opcode is TAG && ops[0].span.start as int == b.start && ops[0].span.end as int
        == b.tag_end
    &&& ops[ops.len() - 1].opcode is TAG && ops[ops.len() - 1].span.start as int == b.close_start
        && ops[ops.len() - 1].span.end as int == b.end
    &&& forall|i: int|
        0 <= i < b.dirs.len() ==> {
            let op = #[trigger] ops[i + 1];
            &&& op.opcode is GET
            &&& op.span.start as int == b.dirs[i].start
            &&& op.span.end as int == b.dirs[i].close + 1
            &&& op.args@.len() == 1
            &&& arg_bytes(op.args@[0]) == directive_arg(s, b.dirs[i])
            &&& (op.args@[0] is String) == (s[b.dirs[i].arg_start] == QUOTE)
        }
}

/// Every scan position of an attribute chain lies past the marker.
proof fn lemma_attrs_pos_lb(s: Seq<u8>, j: int, attrs: Seq<AttrSpan>, k: int)
    requires
        attr_chain(s, j, attrs),
        0 <= k <= attrs.len(),
    ensures
        attrs_pos(j, attrs, k) >= j + 7,
    decreases k,
{
    if k > 0 {
        lemma_attrs_pos_lb(s, j, attrs, k - 1);
        assert(ws_gap(s, attrs_pos(j, attrs, k - 1), (attrs[k - 1]).name_start) && attr_at(
            s,
            attrs[k - 1],
        ));
    }
}

/// What a complete block's head gives: its marker, its typed opening tag.
proof fn lemma_block_parts(s: Seq<u8>, b: BlockSpan)
    requires
        block_at(s, b),
    ensures
        opening_tag_at(s, b.start, b.attrs, b.tag_end),
        tag_typed(s, b.attrs),
        open_marker_at(s, b.start),
        b.start + 7 < b.tag_end,
{
    reveal(block_at);
    lemma_attrs_pos_lb(s, b.start, b.attrs, b.attrs.len() as int);
    assert(ws_gap(s, attrs_pos(b.start, b.attrs, b.attrs.len() as int), b.tag_end - 1));
}

/// A complete block puts its components where its fields say; the
/// constructor direction of the opaque predicate.
proof fn lemma_block_intro(s: Seq<u8>, b: BlockSpan)
    requires
        opening_tag_at(s, b.start, b.attrs, b.tag_end),
        tag_typed(s, b.attrs),
        forall|i: int|
            0 <= i < b.dirs.len() ==> ws_gap(
                s,
                dirs_pos(b.tag_end, b.dirs, i),
                (#[trigger] b.dirs[i]).start,
            ) && directive_at(s, b.dirs[i]),
        ws_gap(s, dirs_pos(b.tag_end, b.dirs, b.dirs.len() as int), b.close_start),
        close_marker_at(s, b.close_start),
        ws_gap(s, b.close_start + 8, b.end - 1),
        b.end - 1 < s.len() && s[b.end - 1] == GT,
    ensures
        block_at(s, b),
{
    reveal(block_at);
}

/// Once the scan stands at a complete block's closing marker, the block's
/// `>` stands exactly where the whitespace after the marker ends.
proof fn lemma_block_close(s: Seq<u8>, b: BlockSpan, q: int)
    requires
        block_at(s, b),
        ws_gap(s, b.close_start + 8, q),
    ensures
        q == b.end - 1,
        b.end - 1 < s.len() && s[b.end - 1] == GT,
{
    reveal(block_at);
    lemma_ws_gap_unique(s, b.close_start + 8, q, b.end - 1);
}

/// After `dcount` directives of a complete block were scanned and the
/// whitespace after them skipped, the scan stands at the block's next
/// directive or at its closing marker.
proof fn lemma_block_next(
    s: Seq<u8>,
    j: int,
    tag_end: int,
    dcount: int,
    p0: int,
    p: int,
    b: BlockSpan,
)
    requires
        block_at(s, b),
        b.start == j,
        b.tag_end == tag_end,
        0 <= dcount <= b.dirs.len(),
        p0 == dirs_pos(tag_end, b.dirs, dcount),
        ws_gap(s, p0, p),
    ensures
        dcount < b.dirs.len() ==> p == b.dirs[dcount].start && directive_at(s, b.dirs[dcount])
            && get_call_at(s, b.dirs[dcount].start),
        dcount == b.dirs.len() ==> p == b.close_start && close_marker_at(s, b.close_start),
{
    reveal(block_at);
    if dcount < b.dirs.len() {
        assert(ws_gap(s, dirs_pos(tag_end, b.dirs, dcount), (b.dirs[dcount]).start)
            && directive_at(s, b.dirs[dcount]));
        lemma_ws_gap_unique(s, p0, p, b.dirs[dcount].start);
    } else {
        lemma_ws_gap_unique(s, p0, p, b.close_start);
    }
}

/// Parses one whole script block that begins at the opening marker `j`:
/// the opening tag, the directives between the markers, and the closing
/// tag.  The two markers become marker-deletion operations of their own, so
/// that assembly deletes the tags while each fetch replaces only its call
/// text.  The parse succeeds exactly when a well-formed typed block stands
/// at `j`, and then enumerates it.
#[verifier::rlimit(100)]
#[verifier::spinoff_prover]
fn parse_block(text: &Vec<u8>, j: usize) -> (r: Result<(Vec<Operation>, usize), ParseError>)
    requires
        open_marker_at(text@, j as int),
    ensures
        match r {
            Ok((bops, end)) => {
                &&& j < end <= text@.len()
                &&& bops@.len() >= 2
                &&& ops_wf(bops@, text@.len() as int)
                &&& forall|i: int|
                    0 <= i < bops@.len() ==> j <= (#[trigger] bops@[i]).span.start
                        && bops@[i].span.end <= end
                &&& forall|i: int|
                    0 <= i < bops@.len() ==> ((#[trigger] bops@[i]).opcode is GET ==> get_call_at(
                        text@,
                        bops@[i].span.start as int,
                    )) && (bops@[i].opcode is TAG ==> text@[bops@[i].span.start as int] == LT)
                &&& forall|i: int|
                    0 <= i < bops@.len() ==> (((#[trigger] bops@[i]).opcode is TAG
                        && open_marker_at(text@, bops@[i].span.start as int))
                        ==> type_marker_within(
                        text@,
                        bops@[i].span.start as int,
                        bops@[i].span.end as int,
                    ))
                &&& exists|b: BlockSpan|
                    #[trigger] block_at(text@, b) && b.start == j as int && b.end == end as int
                        && ops_match_block(text@, bops@, b)
                &&& forall|b: BlockSpan|
                    #[trigger] block_at(text@, b) && b.start == j as int ==> b.end == end as int
            },
            Err(pe) => !(exists|b: BlockSpan| #[trigger] block_at(text@, b) && b.start == j as int),
        },
{
    let n = text.len();
    let (typed, tag_end) = match parse_opening_tag(text, j) {
        Ok(v) => v,
        Err(pe) => {
            proof {
                assert forall|b: BlockSpan|
                    !(#[trigger] block_at(text@, b) && b.start == j as int) by {
                    if block_at(text@, b) && b.start == j as int {
                        lemma_block_parts(text@, b);
                    }
                }
            }
            return Err(pe);
        },
    };
    if !typed {
        proof {
            assert forall|b: BlockSpan|
                !(#[trigger] block_at(text@, b) && b.start == j as int) by {
                if block_at(text@, b) && b.start == j as int {
                    lemma_block_parts(text@, b);
                }
            }
        }
        return Err(ParseError::WrongScriptType);
    }
    let ghost attrs0 = choose|attrs: Seq<AttrSpan>|
        #[trigger] opening_tag_at(text@, j as int, attrs, tag_end as int) && typed == tag_typed(
            text@,
            attrs,
        );
    let ghost mut dirs_built: Seq<DirectiveSpan> = Seq::empty();
    proof {
        assert forall|b: BlockSpan|
            #[trigger] block_at(text@, b) && b.start == j as int implies b.tag_end
            == tag_end as int by {
            lemma_block_parts(text@, b);
        }
    }
    let mut ops: Vec<Operation> = Vec::new();
    ops.push(Operation { opcode: Opcode::TAG, span: j..tag_end, args: Vec::new() });
    let mut p: usize = tag_end;
    loop
        invariant
            j + 7 < tag_end <= p <= n,
            n == text@.len(),
            ops@.len() >= 1,
            forall|i: int| 0 <= i < ops@.len() ==> op_wf(#[trigger] ops@[i], n as int),
            forall|i: int, k: int|
                0 <= i < k < ops@.len() ==> (#[trigger] ops@[i]).span.end <= (
                #[trigger] ops@[k]).span.start,
            forall|i: int|
                0 <= i < ops@.len() ==> j <= (#[trigger] ops@[i]).span.start && ops@[i].span.end
                    <= p,
            forall|i: int|
                0 <= i < ops@.len() ==> ((#[trigger] ops@[i]).opcode is GET ==> get_call_at(
                    text@,
                    ops@[i].span.start as int,
                )) && (ops@[i].opcode is TAG ==> text@[ops@[i].span.start as int] == LT),
            forall|i: int|
                0 <= i < ops@.len() ==> (((#[trigger] ops@[i]).opcode is TAG && open_marker_at(
                    text@,
                    ops@[i].span.start as int,
                )) ==> type_marker_within(
                    text@,
                    ops@[i].span.start as int,
                    ops@[i].span.end as int,
                )),
            opening_tag_at(text@, j as int, attrs0, tag_end as int),
            tag_typed(text@, attrs0),
            forall|i: int|
                0 <= i < dirs_built.len() ==> ws_gap(
                    text@,
                    dirs_pos(tag_end as int, dirs_built, i),
                    (#[trigger] dirs_built[i]).start,
                ) && directive_at(text@, dirs_built[i]),
            p as int == dirs_pos(tag_end as int, dirs_built, dirs_built.len() as int),
            ops@.len() == dirs_built.len() + 1,
            ops@[0].opcode is TAG && ops@[0].span.start == j && ops@[0].span.end == tag_end,
            forall|i: int|
                0 <= i < dirs_built.len() ==> {
                    let op = #[trigger] ops@[i + 1];
                    &&& op.opcode is GET
                    &&& op.span.start as int == dirs_built[i].start
                    &&& op.span.end as int == dirs_built[i].close + 1
                    &&& op.args@.len() == 1
                    &&& arg_bytes(op.args@[0]) == directive_arg(text@, dirs_built[i])
                    &&& (op.args@[0] is String) == (text@[dirs_built[i].arg_start] == QUOTE)
                },
            forall|b: BlockSpan|
                #[trigger] block_at(text@, b) && b.start == j as int ==> b.tag_end == tag_end as int
                    && dirs_built.len() <= b.dirs.len() && p as int == dirs_pos(
                    tag_end as int,
                    b.dirs,
                    dirs_built.len() as int,
                ),
        decreases n - p,
    {
        let ghost p0 = p as int;
        p = skip_ws(text, p);
        proof {
            // Any complete block agrees with the scan so far, so the scan
            // now stands at its next directive or at its closing marker.
            assert forall|b: BlockSpan|
                #[trigger] block_at(text@, b) && b.start == j as int implies {
                let k = dirs_built.len() as int;
                &&& (k < b.dirs.len() ==> p as int == b.dirs[k].start && directive_at(
                    text@,
                    b.dirs[k],
                ) && get_call_at(text@, b.dirs[k].start))
                &&& (k == b.dirs.len() ==> p as int == b.close_start && close_marker_at(
                    text@,
                    b.close_start,
                ))
            } by {
                lemma_block_next(
                    text@,
                    j as int,
                    tag_end as int,
                    dirs_built.len() as int,
                    p0,
                    p as int,
                    b,
                );
            }
        }
        if p >= n {
            proof {
                assert forall|b: BlockSpan|
                    !(#[trigger] block_at(text@, b) && b.start == j as int) by {
                    if block_at(text@, b) && b.start == j as int {
                        let k = dirs_built.len() as int;
                        if k < b.dirs.len() {
                            assert(get_call_at(text@, b.dirs[k].start));
                        } else {
                            assert(close_marker_at(text@, b.close_start));
                        }
                    }
                }
            }
            return Err(ParseError::UnterminatedBlock);
        }
        if n - p >= 8 && text[p] == LT && text[p + 1] == SLASH && text[p + 2] == 115 && text[p + 3]
            == 99 && text[p + 4] == 114 && text[p + 5] == 105 && text[p + 6] == 112 && text[p + 7]
            == 116 {
            proof {
                assert forall|b: BlockSpan|
                    #[trigger] block_at(text@, b) && b.start == j as int implies dirs_built.len()
                    == b.dirs.len() && p as int == b.close_start by {
                    let k = dirs_built.len() as int;
                    if k < b.dirs.len() {
                        assert(get_call_at(text@, b.dirs[k].start));
                    }
                }
            }
            let q = skip_ws(text, p + 8);
            if q >= n || text[q] != GT {
                proof {
                    assert forall|b: BlockSpan|
                        !(#[trigger] block_at(text@, b) && b.start == j as int) by {
                        if block_at(text@, b) && b.start == j as int {
                            lemma_block_close(text@, b, q as int);
                        }
                    }
                }
                return Err(ParseError::MalformedTag);
            }
            let ghost prior_ops = ops@;
            ops.push(Operation { opcode: Opcode::TAG, span: p..(q + 1), args: Vec::new() });
            proof {
                let b0 = BlockSpan {
                    start: j as int,
                    tag_end: tag_end as int,
                    close_start: p as int,
                    end: q + 1,
                    attrs: attrs0,
                    dirs: dirs_built,
                };
                lemma_block_intro(text@, b0);
                assert(block_at(text@, b0));
                assert(ops_match_block(text@, ops@, b0)) by {
                    assert(ops@.len() == dirs_built.len() + 2);
                    assert(ops@[0] == prior_ops[0]);
                    assert(ops@[ops@.len() - 1].opcode is TAG);
                    assert forall|i: int| 0 <= i < b0.dirs.len() implies {
                        let op = #[trigger] ops@[i + 1];
                        &&& op.opcode is GET
                        &&& op.span.start as int == b0.dirs[i].start
                        &&& op.span.end as int == b0.dirs[i].close + 1
                        &&& op.args@.len() == 1
                        &&& arg_bytes(op.args@[0]) == directive_arg(text@, b0.dirs[i])
                        &&& (op.args@[0] is String) == (text@[b0.dirs[i].arg_start] == QUOTE)
                    } by {
                        assert(ops@[i + 1] == prior_ops[i + 1]);
                    }
                }
                assert(block_at(text@, b0) && b0.start == j as int && b0.end == (q + 1) as int
                    && ops_match_block(text@, ops@, b0));
                assert forall|b: BlockSpan|
                    #[trigger] block_at(text@, b) && b.start == j as int implies b.end == (q
                    + 1) as int by {
                    lemma_block_close(text@, b, q as int);
                }
            }
            return Ok((ops, q + 1));
        }
        let b = text[p];
        if (65 <= b && b <= 90) || (97 <= b && b <= 122) || b == 95 {
            proof {
                // A complete block cannot stand at its closing marker here:
                // the marker's first byte is no name byte.
                assert forall|b2: BlockSpan|
                    #[trigger] block_at(text@, b2) && b2.start == j as int implies dirs_built.len()
                    < b2.dirs.len() by {
                    let k = dirs_built.len() as int;
                    if k == b2.dirs.len() {
                        assert(close_marker_at(text@, b2.close_start));
                        assert(text@[p as int] == LT);
                    }
                }
            }
            match parse_directive(text, p) {
                Err(pe) => {
                    proof {
                        assert forall|b2: BlockSpan|
                            !(#[trigger] block_at(text@, b2) && b2.start == j as int) by {
                            if block_at(text@, b2) && b2.start == j as int {
                                let k = dirs_built.len() as int;
                                assert(directive_at(text@, b2.dirs[k]) && b2.dirs[k].start
                                    == p as int);
                            }
                        }
                    }
                    return Err(pe);
                },
                Ok((op, e)) => {
                    proof {
                        let d0 = choose|d: DirectiveSpan|
                            #[trigger] directive_at(text@, d) && d.start == p as int && e as int
                                == d.close + 1 && arg_bytes(op.args@[0]) == directive_arg(text@, d)
                                && ((op.args@[0] is String) == (text@[d.arg_start] == QUOTE));
                        let ghost prev = dirs_built;
                        dirs_built = dirs_built.push(d0);
                        assert forall|i: int|
                            0 <= i < dirs_built.len() implies ws_gap(
                            text@,
                            dirs_pos(tag_end as int, dirs_built, i),
                            (#[trigger] dirs_built[i]).start,
                        ) && directive_at(text@, dirs_built[i]) by {
                            if i < prev.len() {
                                assert(dirs_built[i] == prev[i]);
                                if i > 0 {
                                    assert(dirs_built[i - 1] == prev[i - 1]);
                                }
                            } else {
                                assert(dirs_built[i] == d0);
                                if i > 0 {
                                    assert(dirs_built[i - 1] == prev[i - 1]);
                                }
                            }
                        }
                        assert forall|b2: BlockSpan|
                            #[trigger] block_at(text@, b2) && b2.start == j as int implies b2.tag_end
                            == tag_end as int && dirs_built.len() <= b2.dirs.len() && e as int
                            == dirs_pos(tag_end as int, b2.dirs, dirs_built.len() as int) by {
                            let k = prev.len() as int;
                            assert(directive_at(text@, b2.dirs[k]) && b2.dirs[k].start == p as int);
                        }
                    }
                    ops.push(op);
                    p = e;
                },
            }
        } else {
            proof {
                assert forall|b2: BlockSpan|
                    !(#[trigger] block_at(text@, b2) && b2.start == j as int) by {
                    if block_at(text@, b2) && b2.start == j as int {
                        let k = dirs_built.len() as int;
                        if k < b2.dirs.len() {
                            assert(get_call_at(text@, b2.dirs[k].start));
                            assert(is_name_start(text@[p as int]));
                        } else {
                            assert(close_marker_at(text@, b2.close_start));
                        }
                    }
                }
            }
            return Err(ParseError::MalformedDirective);
        }
    }
}

/// Where the scan stands after `k` whole blocks: the document's start, or
/// the end of the `k`-th block.
pub open spec fn blocks_pos(blocks: Seq<BlockSpan>, k: int) -> int {
    if k == 0 {
        0
    } else {
        blocks[k - 1].end
    }
}

/// The document decomposes into complete typed blocks, with no opening
/// marker anywhere between or after them.  (A marker may still occur
/// inside a block, within a quoted argument.)
pub open spec fn doc_blocks(s: Seq<u8>, blocks: Seq<BlockSpan>) -> bool {
    &&& forall|i: int| 0 <= i < blocks.len() ==> #[trigger] block_at(s, blocks[i])
    &&& forall|i: int|
        0 <= i < blocks.len() ==> blocks_pos(blocks, i) <= (#[trigger] blocks[i]).start
    &&& forall|i: int, p: int|
        0 <= i < blocks.len() && blocks_pos(blocks, i) <= p < (#[trigger] blocks[i]).start
            ==> !(#[trigger] open_marker_at(s, p))
    &&& forall|p: int| blocks_pos(blocks, blocks.len() as int) <= p ==> !open_marker_at(s, p)
}

/// The operations a whole document's blocks contribute, block after block.
pub open spec fn doc_ops_match(s: Seq<u8>, ops: Seq<Operation>, blocks: Seq<BlockSpan>) -> bool
    decreases blocks.len(),
{
    if blocks.len() == 0 {
        ops.len() == 0
    } else {
        let m = blocks[0].dirs.len() + 2;
        &&& ops.len() >= m
        &&& ops_match_block(s, ops.take(m as int), blocks[0])
        &&& doc_ops_match(s, ops.skip(m as int), blocks.drop_first())
    }
}

/// Appending one block's operations extends a document's enumeration.
proof fn lemma_doc_ops_push(
    s: Seq<u8>,
    ops1: Seq<Operation>,
    blocks: Seq<BlockSpan>,
    bops: Seq<Operation>,
    b: BlockSpan,
)
    requires
        doc_ops_match(s, ops1, blocks),
        ops_match_block(s, bops, b),
    ensures
        doc_ops_match(s, ops1 + bops, blocks.push(b)),
    decreases blocks.len(),
{
    reveal_with_fuel(doc_ops_match, 3);
    let m = b.dirs.len() + 2;
    if blocks.len() == 0 {
        assert(blocks.push(b)[0] == b);
        assert((ops1 + bops).take(m as int) =~= bops);
        assert((ops1 + bops).skip(m as int) =~= Seq::<Operation>::empty());
        assert(blocks.push(b).drop_first() =~= Seq::<BlockSpan>::empty());
        assert(doc_ops_match(
            s,
            Seq::<Operation>::empty(),
            Seq::<BlockSpan>::empty(),
        ));
    } else {
        let m0 = blocks[0].dirs.len() + 2;
        assert(blocks.push(b)[0] == blocks[0]);
        assert((ops1 + bops).take(m0 as int) =~= ops1.take(m0 as int));
        assert((ops1 + bops).skip(m0 as int) =~= ops1.skip(m0 as int) + bops);
        assert(blocks.push(b).drop_first() =~= blocks.drop_first().push(b));
        lemma_doc_ops_push(s, ops1.skip(m0 as int), blocks.drop_first(), bops, b);
    }
}

/// Parses a whole document into its ordered operation list.  Text outside
/// script blocks is left alone; each block must declare the expected type
/// and hold only well-formed fetch directives, or the whole parse is
/// rejected with a recoverable error: the parse succeeds exactly when the
/// document decomposes into well-formed typed blocks, and then enumerates
/// every block's tags and directive calls at their exact source spans.  A
/// document without a single opening marker yields no operations at all,
/// so assembly returns it unchanged.
#[verifier::rlimit(100)]
pub fn parse_document(text: &Vec<u8>) -> (r: Result<Vec<Operation>, ParseError>)
    ensures
        match r {
            Ok(ops) => {
                &&& ops_wf(ops@, text@.len() as int)
                &&& forall|i: int|
                    0 <= i < ops@.len() ==> ((#[trigger] ops@[i]).opcode is GET ==> get_call_at(
                        text@,
                        ops@[i].span.start as int,
                    )) && (ops@[i].opcode is TAG ==> text@[ops@[i].span.start as int] == LT)
                &&& forall|i: int|
                    0 <= i < ops@.len() ==> (((#[trigger] ops@[i]).opcode is TAG
                        && open_marker_at(text@, ops@[i].span.start as int))
                        ==> type_marker_within(
                        text@,
                        ops@[i].span.start as int,
                        ops@[i].span.end as int,
                    ))
                &&& (ops@.len() == 0 <==> !has_script_marker(text@))
                &&& exists|blocks: Seq<BlockSpan>|
                    #[trigger] doc_blocks(text@, blocks) && doc_ops_match(text@, ops@, blocks)
            },
            Err(pe) => has_script_marker(text@) && !(exists|blocks: Seq<BlockSpan>|
                #[trigger] doc_blocks(text@, blocks)),
        },
{
    let n = text.len();
    let mut ops: Vec<Operation> = Vec::new();
    let mut i: usize = 0;
    let ghost mut built_blocks: Seq<BlockSpan> = Seq::empty();
    loop
        invariant
            i <= n,
            n == text@.len(),
            forall|k: int| 0 <= k < built_blocks.len() ==> #[trigger] block_at(
                text@,
                built_blocks[k],
            ),
            forall|k: int|
                0 <= k < built_blocks.len() ==> blocks_pos(built_blocks, k) <= (
                #[trigger] built_blocks[k]).start,
            forall|k: int, p: int|
                0 <= k < built_blocks.len() && blocks_pos(built_blocks, k) <= p < (
                #[trigger] built_blocks[k]).start ==> !(#[trigger] open_marker_at(text@, p)),
            i as int == blocks_pos(built_blocks, built_blocks.len() as int),
            doc_ops_match(text@, ops@, built_blocks),
            forall|blocks: Seq<BlockSpan>|
                #[trigger] doc_blocks(text@, blocks) ==> built_blocks.len() <= blocks.len() && (
                forall|k: int|
                    0 <= k < built_blocks.len() ==> (#[trigger] blocks[k]).start
                        == built_blocks[k].start && blocks[k].end == built_blocks[k].end),
            forall|a: int| 0 <= a < ops@.len() ==> op_wf(#[trigger] ops@[a], n as int),
            forall|a: int, b: int|
                0 <= a < b < ops@.len() ==> (#[trigger] ops@[a]).span.end <= (
                #[trigger] ops@[b]).span.start,
            forall|a: int| 0 <= a < ops@.len() ==> (#[trigger] ops@[a]).span.end <= i,
            forall|a: int|
                0 <= a < ops@.len() ==> ((#[trigger] ops@[a]).opcode is GET ==> get_call_at(
                    text@,
                    ops@[a].span.start as int,
                )) && (ops@[a].opcode is TAG ==> text@[ops@[a].span.start as int] == LT),
            forall|a: int|
                0 <= a < ops@.len() ==> (((#[trigger] ops@[a]).opcode is TAG && open_marker_at(
                    text@,
                    ops@[a].span.start as int,
                )) ==> type_marker_within(
                    text@,
                    ops@[a].span.start as int,
                    ops@[a].span.end as int,
                )),
            ops@.len() > 0 ==> has_script_marker(text@),
            has_script_marker(text@) ==> (exists|m: int|
                open_marker_at(text@, m) && m >= i) || ops@.len() >= 2,
        decreases n - i,
    {
        match find_marker(text, i) {
            None => {
                proof {
                    if has_script_marker(text@) && ops@.len() < 2 {
                        let m = choose|m: int| open_marker_at(text@, m) && m >= i;
                        assert(!open_marker_at(text@, m));
                    }
                    assert(doc_blocks(text@, built_blocks) && doc_ops_match(
                        text@,
                        ops@,
                        built_blocks,
                    ));
                }
                return Ok(ops);
            },
            Some(j) => {
                proof {
                    // Any complete decomposition's next block starts at the
                    // first marker the scan just found.
                    assert forall|blocks: Seq<BlockSpan>|
                        #[trigger] doc_blocks(text@, blocks) implies built_blocks.len()
                        < blocks.len() && (blocks[built_blocks.len() as int]).start == j as int
                        && block_at(text@, blocks[built_blocks.len() as int]) by {
                        let k = built_blocks.len() as int;
                        assert(blocks_pos(blocks, k) == i as int) by {
                            if k > 0 {
                                assert((blocks[k - 1]).end == built_blocks[k - 1].end);
                            }
                        }
                        if k == blocks.len() {
                            assert(!open_marker_at(text@, j as int));
                            assert(false);
                        }
                        assert(block_at(text@, blocks[k]));
                        lemma_block_parts(text@, blocks[k]);
                        if (blocks[k]).start < j as int {
                            assert(!open_marker_at(text@, (blocks[k]).start));
                            assert(false);
                        }
                        if (j as int) < (blocks[k]).start {
                            assert(!open_marker_at(text@, j as int));
                            assert(false);
                        }
                    }
                }
                match parse_block(text, j) {
                    Err(pe) => {
                        proof {
                            assert forall|blocks: Seq<BlockSpan>|
                                !(#[trigger] doc_blocks(text@, blocks)) by {
                                if doc_blocks(text@, blocks) {
                                    let k = built_blocks.len() as int;
                                    assert(block_at(text@, blocks[k]) && (blocks[k]).start
                                        == j as int);
                                }
                            }
                        }
                        return Err(pe);
                    },
                    Ok((mut bops, end)) => {
                        let ghost prior = ops@;
                        let ghost added = bops@;
                        ops.append(&mut bops);
                        proof {
                            assert(ops@ == prior + added);
                            assert forall|a: int| 0 <= a < ops@.len() implies op_wf(
                                #[trigger] ops@[a],
                                n as int,
                            ) by {
                                if a < prior.len() {
                                    assert(ops@[a] == prior[a]);
                                } else {
                                    assert(ops@[a] == added[a - prior.len()]);
                                }
                            }
                            assert forall|a: int, b: int| 0 <= a < b < ops@.len() implies (
                            #[trigger] ops@[a]).span.end <= (#[trigger] ops@[b]).span.start by {
                                if b < prior.len() {
                                    assert(ops@[a] == prior[a]);
                                    assert(ops@[b] == prior[b]);
                                } else if a >= prior.len() {
                                    assert(ops@[a] == added[a - prior.len()]);
                                    assert(ops@[b] == added[b - prior.len()]);
                                } else {
                                    assert(ops@[a] == prior[a]);
                                    assert(ops@[b] == added[b - prior.len()]);
                                    assert(prior[a].span.end <= i <= j);
                                }
                            }
                            assert forall|a: int| 0 <= a < ops@.len() implies (
                            #[trigger] ops@[a]).span.end <= end by {
                                if a < prior.len() {
                                    assert(ops@[a] == prior[a]);
                                } else {
                                    assert(ops@[a] == added[a - prior.len()]);
                                }
                            }
                            assert forall|a: int| 0 <= a < ops@.len() implies ((
                            #[trigger] ops@[a]).opcode is GET ==> get_call_at(
                                text@,
                                ops@[a].span.start as int,
                            )) && (ops@[a].opcode is TAG ==> text@[ops@[a].span.start as int]
                                == LT) by {
                                if a < prior.len() {
                                    assert(ops@[a] == prior[a]);
                                } else {
                                    assert(ops@[a] == added[a - prior.len()]);
                                }
                            }
                            assert forall|a: int| 0 <= a < ops@.len() implies (((
                            #[trigger] ops@[a]).opcode is TAG && open_marker_at(
                                text@,
                                ops@[a].span.start as int,
                            )) ==> type_marker_within(
                                text@,
                                ops@[a].span.start as int,
                                ops@[a].span.end as int,
                            )) by {
                                if a < prior.len() {
                                    assert(ops@[a] == prior[a]);
                                } else {
                                    assert(ops@[a] == added[a - prior.len()]);
                                }
                            }
                            // Extend the enumerated decomposition by the
                            // block just parsed.
                            let b0 = choose|b: BlockSpan|
                                #[trigger] block_at(text@, b) && b.start == j as int && b.end
                                    == end as int && ops_match_block(text@, added, b);
                            assert(block_at(text@, b0) && b0.start == j as int && b0.end
                                == end as int && ops_match_block(text@, added, b0));
                            let prev_blocks = built_blocks;
                            built_blocks = built_blocks.push(b0);
                            lemma_doc_ops_push(text@, prior, prev_blocks, added, b0);
                            assert(built_blocks[built_blocks.len() - 1] == b0);
                            assert(blocks_pos(built_blocks, prev_blocks.len() as int)
                                == i as int) by {
                                if prev_blocks.len() > 0 {
                                    assert(built_blocks[prev_blocks.len() - 1]
                                        == prev_blocks[prev_blocks.len() - 1]);
                                }
                            }
                            assert(i <= j);
                            assert forall|k: int|
                                0 <= k < built_blocks.len() implies #[trigger] block_at(
                                text@,
                                built_blocks[k],
                            ) && blocks_pos(built_blocks, k) <= built_blocks[k].start by {
                                if k < prev_blocks.len() {
                                    assert(built_blocks[k] == prev_blocks[k]);
                                    if k > 0 {
                                        assert(built_blocks[k - 1] == prev_blocks[k - 1]);
                                    }
                                } else {
                                    assert(built_blocks[k] == b0);
                                    if k > 0 {
                                        assert(built_blocks[k - 1] == prev_blocks[k - 1]);
                                    }
                                    assert(blocks_pos(built_blocks, k) == i as int);
                                }
                            }
                            assert forall|k: int, p: int|
                                0 <= k < built_blocks.len() && blocks_pos(built_blocks, k) <= p < (
                                #[trigger] built_blocks[k]).start implies !(
                                #[trigger] open_marker_at(text@, p)) by {
                                if k < prev_blocks.len() {
                                    assert(built_blocks[k] == prev_blocks[k]);
                                    if k > 0 {
                                        assert(built_blocks[k - 1] == prev_blocks[k - 1]);
                                    }
                                    assert(blocks_pos(built_blocks, k) == blocks_pos(
                                        prev_blocks,
                                        k,
                                    ));
                                    assert(prev_blocks[k].start == built_blocks[k].start);
                                } else {
                                    assert(built_blocks[k] == b0);
                                    if k > 0 {
                                        assert(built_blocks[k - 1] == prev_blocks[k - 1]);
                                    }
                                    assert(blocks_pos(built_blocks, k) == i as int);
                                    assert(i as int <= p < j as int);
                                }
                            }
                            assert(end as int == blocks_pos(
                                built_blocks,
                                built_blocks.len() as int,
                            ));
                            assert forall|blocks: Seq<BlockSpan>|
                                #[trigger] doc_blocks(text@, blocks) implies built_blocks.len()
                                <= blocks.len() && (forall|k: int|
                                0 <= k < built_blocks.len() ==> (#[trigger] blocks[k]).start
                                    == built_blocks[k].start && blocks[k].end
                                    == built_blocks[k].end) by {
                                let k0 = prev_blocks.len() as int;
                                assert(block_at(text@, blocks[k0]) && (blocks[k0]).start
                                    == j as int);
                                assert((blocks[k0]).end == end as int);
                                assert forall|k: int|
                                    0 <= k < built_blocks.len() implies (#[trigger] blocks[k]).start
                                    == built_blocks[k].start && blocks[k].end
                                    == built_blocks[k].end by {
                                    if k < k0 {
                                        assert(built_blocks[k] == prev_blocks[k]);
                                    } else {
                                        assert(built_blocks[k] == b0);
                                    }
                                }
                            }
                        }
                        i = end;
                    },
                }
            },
        }
    }
}

/// One parsed script block: its operations and whether its opening marker
/// declared the expected directive-language type.
pub struct Script {
    pub operations: Vec<Operation>,
    pub is_type_correct: bool,
}

/// A script is valid only if its opening marker declared the expected type,
/// no unrecognized directive remains, and every fetch directive carries
/// exactly one argument.
pub open spec fn script_okay(ops: Seq<Operation>, is_type_correct: bool) -> bool {
    &&& is_type_correct
    &&& forall|i: int|
        0 <= i < ops.len() ==> match (#[trigger] ops[i]).opcode {
            Opcode::TAG => true,
            Opcode::ERR => false,
            Opcode::GET => ops[i].args@.len() == 1,
        }
}

impl Script {
    /// Whether this script is valid; checked in full before any operation is
    /// dispatched.
    pub fn is_okay(&self) -> (r: bool)
        ensures
            r == script_okay(self.operations@, self.is_type_correct),
    {
        if !self.is_type_correct {
            return false;
        }
        let n = self.operations.len();
        let mut i: usize = 0;
        while i < n
            invariant
                i <= n,
                n == self.operations@.len(),
                forall|k: int|
                    0 <= k < i ==> match (#[trigger] self.operations@[k]).opcode {
                        Opcode::TAG => true,
                        Opcode::ERR => false,
                        Opcode::GET => self.operations@[k].args@.len() == 1,
                    },
            decreases n - i,
        {
            match self.operations[i].opcode {
                Opcode::TAG => {},
                Opcode::ERR => {
                    return false;
                },
                Opcode::GET => {
                    if self.operations[i].args.len() != 1 {
                        return false;
                    }
                },
            }
            i = i + 1;
        }
        true
    }

    /// A new, empty script, to be filled while a block is parsed.
    pub fn uninit() -> (r: Self)
        ensures
            r.operations@.len() == 0,
            !r.is_type_correct,
    {
        Self { operations: Vec::new(), is_type_correct: false }
    }
}

/// The directive-language parser's entry point.
pub struct SaraParser;

impl SaraParser {
    /// Parses a document's bytes into its ordered operation list; see
    /// `parse_document`.  The parse succeeds exactly when the document
    /// decomposes into well-formed typed blocks, and then returns exactly
    /// those blocks' tag and directive-call operations; in particular, a
    /// block whose opening marker lacks the expected type declaration is
    /// never accepted.
    pub fn parse(text: &Vec<u8>) -> (r: Result<Vec<Operation>, ParseError>)
        ensures
            match r {
                Ok(ops) => {
                    &&& ops_wf(ops@, text@.len() as int)
                    &&& (ops@.len() == 0 <==> !has_script_marker(text@))
                    &&& forall|i: int|
                        0 <= i < ops@.len() ==> (((#[trigger] ops@[i]).opcode is TAG
                            && open_marker_at(text@, ops@[i].span.start as int))
                            ==> type_marker_within(
                            text@,
                            ops@[i].span.start as int,
                            ops@[i].span.end as int,
                        ))
                    &&& exists|blocks: Seq<BlockSpan>|
                        #[trigger] doc_blocks(text@, blocks) && doc_ops_match(text@, ops@, blocks)
                },
                Err(pe) => has_script_marker(text@) && !(exists|blocks: Seq<BlockSpan>|
                    #[trigger] doc_blocks(text@, blocks)),
            },
    {
        parse_document(text)
    }
}

} // verus!
