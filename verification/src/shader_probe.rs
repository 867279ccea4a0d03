//! Reads constants and function bodies out of WGSL shader source.
//!
//! The shader is the live path; these readers let tests hold Rust mirrors of
//! its maths against what the shader really says. Everything here works on
//! the source text it is given, so a fixture can stand in for the shader.

use vstd::prelude::*;
use vstd::string::StrSliceExecFns;
use vstd::string::StringSliceAdditionalSpecFns;
use vstd::utf8::*;

use crate::chars::{
    char_is_alphanumeric, ident_char, is_alphanumeric, is_ident_char, is_white_space, white_space,
};
use crate::text::{
    at_boundary, find_byte, find_from, first_from, last_byte_in, lemma_after_ascii, lemma_boundary,
    lemma_first_from, lemma_first_from_is, lemma_first_from_none, lemma_last_byte_in,
    lemma_last_byte_in_is, lemma_valid_prefix_boundary, occurs_at, rfind_byte, substr,
};

verus! {

broadcast use group_utf8_lib;

/// Why a constant could not be read.
#[derive(Clone, Copy, Debug, PartialEq, Eq, Structural)]
pub enum ProbeError {
    /// No `const NAME` declaration opens a line of the source.
    NoConstant,
    /// The declaration runs to the end of the source without a `;`.
    NoSemicolon,
    /// The declaration holds no `(`, so it is not built from a constructor.
    NotConstructor,
    /// No `)` follows the constructor's `(`.
    NoClosingParenthesis,
}

/// The bytes `const ` that open a declaration.
pub open spec fn const_keyword() -> Seq<u8> {
    seq![0x63u8, 0x6f, 0x6e, 0x73, 0x74, 0x20]
}

/// The start of the line that holds offset `p`: just after the last newline
/// before `p`, or the start of the text.
pub open spec fn line_start(b: Seq<u8>, p: int) -> int
    decreases p,
{
    if p <= 0 {
        0
    } else if b[p - 1] == 0x0a {
        p
    } else {
        line_start(b, p - 1)
    }
}

/// Everything on the line before offset `p` is white space, so whatever
/// starts at `p` opens the line rather than sitting in a comment or mid-line.
pub open spec fn blank_before(b: Seq<u8>, p: int) -> bool {
    let prefix = decode_utf8(b.subrange(line_start(b, p), p));
    forall|k: int| 0 <= k < prefix.len() ==> is_white_space(#[trigger] prefix[k])
}

/// The identifier that starts at offset `i` is exactly `name`: the text
/// continues with `name`, `name` is made of identifier characters, and the
/// character after it (if any) cannot continue an identifier.
pub open spec fn names_at(b: Seq<u8>, i: int, name: &str) -> bool {
    let n = name.spec_bytes();
    &&& occurs_at(b, n, i)
    &&& forall|k: int| 0 <= k < name@.len() ==> is_ident_char(#[trigger] name@[k])
    &&& (i + n.len() == b.len() || !is_ident_char(
        decode_utf8(b.subrange(i + n.len(), b.len() as int))[0],
    ))
}

/// A declaration of `name` opens at offset `p`.
pub open spec fn declares_at(b: Seq<u8>, name: &str, p: int) -> bool {
    &&& occurs_at(b, const_keyword(), p)
    &&& blank_before(b, p)
    &&& names_at(b, p + 6, name)
}

/// The leftmost declaration of `name` at or after offset `from`.
pub open spec fn first_declaration(b: Seq<u8>, name: &str, from: int) -> Option<int>
    decreases b.len() + 1 - from,
{
    if from < 0 || from > b.len() {
        None
    } else if declares_at(b, name, from) {
        Some(from)
    } else {
        first_declaration(b, name, from + 1)
    }
}

/// The first declaration of `name`, as bytes of the source: everything
/// between its `const NAME` and the `;` that ends it.
pub open spec fn declared_bytes(b: Seq<u8>, name: &str) -> Result<Seq<u8>, ProbeError> {
    match first_declaration(b, name, 0) {
        None => Err(ProbeError::NoConstant),
        Some(p) => {
            let a = p + 6 + name.spec_bytes().len();
            match first_from(b, seq![0x3bu8], a) {
                None => Err(ProbeError::NoSemicolon),
                Some(e) => Ok(b.subrange(a, e)),
            }
        },
    }
}

/// Skipping offsets where no `const ` starts leaves the search unchanged.
proof fn lemma_skip_to(b: Seq<u8>, name: &str, from: int, to: int)
    requires
        0 <= from <= to <= b.len() + 1,
        forall|q: int| from <= q < to ==> !occurs_at(b, const_keyword(), q),
    ensures
        first_declaration(b, name, from) == first_declaration(b, name, to),
    decreases to - from,
{
    if from < to {
        lemma_skip_to(b, name, from + 1, to);
    }
}

/// `const ` cannot start again inside an occurrence of itself.
proof fn lemma_keyword_no_overlap(b: Seq<u8>, p: int, q: int)
    requires
        occurs_at(b, const_keyword(), p),
        p < q < p + 6,
    ensures
        !occurs_at(b, const_keyword(), q),
{
    assert(b.subrange(p, p + 6)[q - p] == b[q]);
    if occurs_at(b, const_keyword(), q) {
        assert(b.subrange(q, q + 6)[0] == b[q]);
    }
}

/// Whether everything on the line before `p` is white space.
fn line_is_blank(src: &str, p: usize) -> (r: bool)
    requires
        p < src.spec_bytes().len(),
        src.spec_bytes()[p as int] <= 0x7f,
    ensures
        r == blank_before(src.spec_bytes(), p as int),
{
    let b = src.as_bytes();
    let ghost bs = src.spec_bytes();
    let mut ls = p;
    while ls > 0 && b[ls - 1] != 0x0a
        invariant
            ls <= p,
            b@ == bs,
            bs == src.spec_bytes(),
            p < bs.len(),
            line_start(bs, p as int) == line_start(bs, ls as int),
        decreases ls,
    {
        ls = ls - 1;
    }
    proof {
        if ls > 0 {
            lemma_after_ascii(bs, ls as int);
        }
    }
    let prefix = substr(src, ls, p);
    assert(line_start(bs, p as int) == ls);
    assert(prefix@ == decode_utf8(bs.subrange(ls as int, p as int)));
    let n = prefix.unicode_len();
    let mut k: usize = 0;
    while k < n
        invariant
            k <= n,
            n == prefix@.len(),
            line_start(bs, p as int) == ls,
            bs == src.spec_bytes(),
            prefix@ == decode_utf8(bs.subrange(ls as int, p as int)),
            forall|j: int| 0 <= j < k ==> is_white_space(#[trigger] prefix@[j]),
        decreases n - k,
    {
        if !white_space(prefix.get_char(k)) {
            return false;
        }
        k = k + 1;
    }
    true
}

/// Whether the identifier starting at byte offset `i` is exactly `name`.
fn identifier_is(src: &str, i: usize, name: &str) -> (r: bool)
    requires
        0 < i <= src.spec_bytes().len(),
        src.spec_bytes()[i - 1] <= 0x7f,
    ensures
        r == names_at(src.spec_bytes(), i as int, name),
        r ==> at_boundary(src.spec_bytes(), i + name.spec_bytes().len()),
{
    let b = src.as_bytes();
    let nb = name.as_bytes();
    let ghost bs = src.spec_bytes();
    let ghost ns = name.spec_bytes();
    if nb.len() > b.len() - i {
        return false;
    }
    let mut k: usize = 0;
    while k < nb.len()
        invariant
            k <= nb.len(),
            i + nb.len() <= b.len(),
            b@ == bs,
            nb@ == ns,
            bs == src.spec_bytes(),
            ns == name.spec_bytes(),
            forall|j: int| 0 <= j < k ==> bs[i + j] == ns[j],
        decreases nb.len() - k,
    {
        if b[i + k] != nb[k] {
            assert(bs.subrange(i as int, i + ns.len())[k as int] == bs[i + k]);
            assert(!occurs_at(bs, ns, i as int));
            return false;
        }
        k = k + 1;
    }
    assert(bs.subrange(i as int, i + ns.len()) =~= ns);
    let count = name.unicode_len();
    let mut c: usize = 0;
    while c < count
        invariant
            c <= count,
            count == name@.len(),
            forall|j: int| 0 <= j < c ==> is_ident_char(#[trigger] name@[j]),
        decreases count - c,
    {
        if !ident_char(name.get_char(c)) {
            return false;
        }
        c = c + 1;
    }
    let j = i + nb.len();
    if j == b.len() {
        assert(at_boundary(bs, j as int));
        return true;
    }
    proof {
        lemma_after_ascii(bs, i as int);
        lemma_boundary(bs, i as int);
        let x = bs.subrange(i as int, bs.len() as int);
        assert(x.subrange(0, ns.len() as int) =~= ns);
        lemma_valid_prefix_boundary(x, ns.len() as int);
        lemma_boundary(x, ns.len() as int);
        assert(x[ns.len() as int] == bs[j as int]);
        assert(at_boundary(bs, j as int));
    }
    let tail = substr(src, j, b.len());
    proof {
        assert(tail.spec_bytes().len() > 0);
        assert(tail@.len() > 0);
    }
    !ident_char(tail.get_char(0))
}

/// The declaration of `name`: everything between `const NAME` and the `;`
/// that ends it.
///
/// Only a `const` that opens its line counts, so one inside a comment or
/// mid-line is passed over, and `NAME` must be the whole identifier, so a
/// prefix never answers for a longer name.
pub fn declaration<'a>(src: &'a str, name: &str) -> (r: Result<&'a str, ProbeError>)
    ensures
        match (r, declared_bytes(src.spec_bytes(), name)) {
            (Ok(d), Ok(x)) => d.spec_bytes() == x,
            (Err(e), Err(f)) => e == f,
            _ => false,
        },
{
    let b = src.as_bytes();
    let ghost bs = src.spec_bytes();
    let keyword: Vec<u8> = vec![0x63u8, 0x6f, 0x6e, 0x73, 0x74, 0x20];
    assert(keyword@ =~= const_keyword());
    let mut searched: usize = 0;
    loop
        invariant
            searched <= b.len(),
            b@ == bs,
            bs == src.spec_bytes(),
            keyword@ == const_keyword(),
            first_declaration(bs, name, 0) == first_declaration(bs, name, searched as int),
        decreases b.len() - searched,
    {
        match find_from(b, keyword.as_slice(), searched) {
            None => {
                proof {
                    lemma_first_from(bs, const_keyword(), searched as int);
                    lemma_skip_to(bs, name, searched as int, bs.len() + 1int);
                    assert(first_declaration(bs, name, bs.len() + 1int) is None);
                }
                return Err(ProbeError::NoConstant);
            },
            Some(start) => {
                proof {
                    lemma_first_from(bs, const_keyword(), searched as int);
                    lemma_skip_to(bs, name, searched as int, start as int);
                    assert(occurs_at(bs, const_keyword(), start as int));
                    assert(bs.subrange(start as int, start + 6) == const_keyword());
                    assert(bs.subrange(start as int, start + 6)[0] == bs[start as int]);
                    assert(bs.subrange(start as int, start + 6)[5] == bs[start + 5]);
                    assert(bs[start as int] == 0x63u8);
                    assert(bs[start + 5] == 0x20u8);
                }
                let after = start + 6;
                if line_is_blank(src, start) && identifier_is(src, after, name) {
                    let named = after + name.as_bytes().len();
                    match find_byte(b, 0x3b, named) {
                        None => {
                            return Err(ProbeError::NoSemicolon);
                        },
                        Some(end) => {
                            proof {
                                lemma_first_from(bs, seq![0x3bu8], named as int);
                                assert(bs.subrange(end as int, end + 1)[0] == bs[end as int]);
                            }
                            return Ok(substr(src, named, end));
                        },
                    }
                }
                proof {
                    assert forall|q: int| start < q < start + 6 implies !occurs_at(
                        bs,
                        const_keyword(),
                        q,
                    ) by {
                        lemma_keyword_no_overlap(bs, start as int, q);
                    }
                    lemma_skip_to(bs, name, start + 1, start + 6);
                }
                searched = after;
            },
        }
    }
}

/// The span of the constructor's arguments in a declaration: after its
/// first `(` and before the last `)` that follows.
pub open spec fn payload_bytes(d: Seq<u8>) -> Result<Seq<u8>, ProbeError> {
    match first_from(d, seq![0x28u8], 0) {
        None => Err(ProbeError::NotConstructor),
        Some(open) => match last_byte_in(d, 0x29u8, open, d.len() as int) {
            None => Err(ProbeError::NoClosingParenthesis),
            Some(close) => Ok(d.subrange(open + 1, close)),
        },
    }
}

/// The arguments of the constructor a declaration is built from, so that the
/// element count in `array<f32, 8>` is not mistaken for a value.
pub fn constructor_payload(decl: &str) -> (r: Result<&str, ProbeError>)
    ensures
        match (r, payload_bytes(decl.spec_bytes())) {
            (Ok(p), Ok(x)) => p.spec_bytes() == x,
            (Err(e), Err(f)) => e == f,
            _ => false,
        },
{
    let d = decl.as_bytes();
    let ghost ds = decl.spec_bytes();
    match find_byte(d, 0x28, 0) {
        None => Err(ProbeError::NotConstructor),
        Some(open) => {
            proof {
                lemma_first_from(ds, seq![0x28u8], 0);
                assert(ds.subrange(open as int, open + 1)[0] == ds[open as int]);
            }
            match rfind_byte(d, 0x29, open) {
                None => Err(ProbeError::NoClosingParenthesis),
                Some(close) => {
                    proof {
                        lemma_last_byte_in(ds, 0x29u8, open as int, ds.len() as int);
                        lemma_after_ascii(ds, open + 1);
                    }
                    Ok(substr(decl, open + 1, close))
                },
            }
        },
    }
}

/// An ASCII decimal digit.
pub open spec fn is_digit(c: u8) -> bool {
    0x30 <= c <= 0x39
}

/// The byte before offset `i`, read as a character the way a byte converts
/// to `char`, continues an identifier: a digit there belongs to a name or a
/// type such as `vec3<f32>` rather than to a value.
pub open spec fn follows_identifier(b: Seq<u8>, i: int) -> bool {
    i > 0 && (char_is_alphanumeric(b[i - 1] as char) || b[i - 1] == 0x5f)
}

/// A literal starts at offset `i`: a digit, or a sign or point directly
/// before a digit, that does not continue an identifier.
pub open spec fn starts_literal(b: Seq<u8>, i: int) -> bool {
    &&& !follows_identifier(b, i)
    &&& (is_digit(b[i]) || ((b[i] == 0x2d || b[i] == 0x2b || b[i] == 0x2e) && i + 1 < b.len()
        && is_digit(b[i + 1])))
}

/// The byte at offset `j` extends the literal before it: a digit, a point,
/// an exponent mark, or a sign just after an exponent mark.
pub open spec fn continues_literal(b: Seq<u8>, j: int) -> bool {
    ||| is_digit(b[j])
    ||| b[j] == 0x2e
    ||| b[j] == 0x65
    ||| b[j] == 0x45
    ||| (b[j] == 0x2d || b[j] == 0x2b) && (b[j - 1] == 0x65 || b[j - 1] == 0x45)
}

/// Where a literal whose bytes run up to offset `j` ends.
pub open spec fn literal_end(b: Seq<u8>, j: int) -> int
    decreases b.len() - j,
{
    if 0 < j < b.len() && continues_literal(b, j) {
        literal_end(b, j + 1)
    } else {
        j
    }
}

/// A literal's end lies at or after where it was looked for, and no further
/// than the end of the text.
pub proof fn lemma_literal_end(b: Seq<u8>, j: int)
    requires
        0 < j <= b.len(),
    ensures
        j <= literal_end(b, j) <= b.len(),
        forall|k: int| j <= k < literal_end(b, j) ==> continues_literal(b, k),
        literal_end(b, j) == b.len() || !continues_literal(b, literal_end(b, j)),
    decreases b.len() - j,
{
    if j < b.len() && continues_literal(b, j) {
        lemma_literal_end(b, j + 1);
    }
}

/// The spans `(start, end)` of the literals found scanning from offset `i`,
/// in source order.
pub open spec fn literal_spans(b: Seq<u8>, i: int) -> Seq<(int, int)>
    decreases b.len() - i,
{
    if i < 0 || i >= b.len() {
        seq![]
    } else if starts_literal(b, i) {
        proof {
            lemma_literal_end(b, i + 1);
        }
        seq![(i, literal_end(b, i + 1))] + literal_spans(b, literal_end(b, i + 1))
    } else {
        literal_spans(b, i + 1)
    }
}

/// The bytes that a list of spans covers.
pub open spec fn span_texts(b: Seq<u8>, spans: Seq<(int, int)>) -> Seq<Seq<u8>> {
    spans.map_values(|sp: (int, int)| b.subrange(sp.0, sp.1))
}

/// Every float literal of the text, as bytes, in source order.
pub open spec fn literal_texts(b: Seq<u8>) -> Seq<Seq<u8>> {
    span_texts(b, literal_spans(b, 0))
}

/// The bytes of each text in a list.
pub open spec fn texts_of(v: Seq<&str>) -> Seq<Seq<u8>> {
    v.map_values(|s: &str| s.spec_bytes())
}

fn digit(c: u8) -> (r: bool)
    ensures
        r == is_digit(c),
{
    0x30 <= c && c <= 0x39
}

fn continues_at(b: &[u8], j: usize) -> (r: bool)
    requires
        0 < j < b@.len(),
    ensures
        r == continues_literal(b@, j as int),
{
    let c = b[j];
    digit(c) || c == 0x2e || c == 0x65 || c == 0x45 || ((c == 0x2d || c == 0x2b) && (b[j - 1]
        == 0x65 || b[j - 1] == 0x45))
}

fn starts_at(b: &[u8], i: usize) -> (r: bool)
    requires
        i < b@.len(),
    ensures
        r == starts_literal(b@, i as int),
{
    let follows = i > 0 && (is_alphanumeric(b[i - 1] as char) || b[i - 1] == 0x5f);
    let c = b[i];
    let signed = (c == 0x2d || c == 0x2b || c == 0x2e) && i + 1 < b.len() && digit(b[i + 1]);
    !follows && (digit(c) || signed)
}

/// Every float literal in a fragment of WGSL, in source order.
///
/// A digit that continues an identifier is part of a type rather than a
/// value, which is what keeps the 3 and the 32 of `vec3<f32>` out of the
/// results.
pub fn float_literals(text: &str) -> (lits: Vec<&str>)
    ensures
        texts_of(lits@) == literal_texts(text.spec_bytes()),
{
    let b = text.as_bytes();
    let ghost bs = text.spec_bytes();
    let mut lits: Vec<&str> = Vec::new();
    let mut i: usize = 0;
    assert(texts_of(lits@) + span_texts(bs, literal_spans(bs, 0)) =~= literal_texts(bs));
    while i < b.len()
        invariant
            i <= b.len(),
            b@ == bs,
            bs == text.spec_bytes(),
            texts_of(lits@) + span_texts(bs, literal_spans(bs, i as int)) == literal_texts(bs),
        decreases b.len() - i,
    {
        if !starts_at(b, i) {
            i = i + 1;
        } else {
            let start = i;
            i = i + 1;
            while i < b.len() && continues_at(b, i)
                invariant
                    start < i <= b.len(),
                    b@ == bs,
                    literal_end(bs, start + 1) == literal_end(bs, i as int),
                    bs[i - 1] <= 0x7f,
                decreases b.len() - i,
            {
                i = i + 1;
            }
            proof {
                lemma_literal_end(bs, start + 1);
                assert(bs[start as int] <= 0x7f);
                lemma_after_ascii(bs, i as int);
            }
            let lit = substr(text, start, i);
            let ghost before = texts_of(lits@);
            lits.push(lit);
            proof {
                let rest = literal_spans(bs, i as int);
                assert(literal_spans(bs, start as int) == seq![(start as int, i as int)] + rest);
                assert(span_texts(bs, seq![(start as int, i as int)] + rest) =~= seq![
                    bs.subrange(start as int, i as int),
                ] + span_texts(bs, rest));
                assert(texts_of(lits@) =~= before.push(lit.spec_bytes()));
                assert(texts_of(lits@) + span_texts(bs, rest) =~= before + span_texts(
                    bs,
                    literal_spans(bs, start as int),
                ));
            }
        }
    }
    assert(texts_of(lits@) =~= texts_of(lits@) + span_texts(bs, literal_spans(bs, i as int)));
    lits
}

/// Every float literal in the declaration of `name`, in source order: the
/// values of a `const NAME: f32 = VALUE;`, before they are read as numbers.
pub fn const_literals_in<'a>(src: &'a str, name: &str) -> (r: Result<Vec<&'a str>, ProbeError>)
    ensures
        match (r, declared_bytes(src.spec_bytes(), name)) {
            (Ok(lits), Ok(d)) => texts_of(lits@) == literal_texts(d),
            (Err(e), Err(f)) => e == f,
            _ => false,
        },
{
    match declaration(src, name) {
        Ok(decl) => Ok(float_literals(decl)),
        Err(e) => Err(e),
    }
}

/// Every float literal among the constructor arguments of the declaration
/// of `name`, in source order: the values of a `vec3<f32>(..)`,
/// `mat3x3<f32>(..)` or `array<f32, N>(..)`, which may span several lines.
pub fn constructor_literals_in<'a>(src: &'a str, name: &str) -> (r: Result<
    Vec<&'a str>,
    ProbeError,
>)
    ensures
        match (r, declared_bytes(src.spec_bytes(), name)) {
            (Ok(lits), Ok(d)) => payload_bytes(d) matches Ok(p) && texts_of(lits@)
                == literal_texts(p),
            (Err(e), Ok(d)) => payload_bytes(d) == Err::<Seq<u8>, ProbeError>(e),
            (Err(e), Err(f)) => e == f,
            _ => false,
        },
{
    match declaration(src, name) {
        Ok(decl) => match constructor_payload(decl) {
            Ok(payload) => Ok(float_literals(payload)),
            Err(e) => Err(e),
        },
        Err(e) => Err(e),
    }
}

/// The bytes `fn NAME` that introduce a function.
pub open spec fn fn_header(name: &str) -> Seq<u8> {
    seq![0x66u8, 0x6e, 0x20] + name.spec_bytes()
}

/// The bytes that close a top-level block: a newline and `}`.
pub open spec fn block_close() -> Seq<u8> {
    seq![0x0au8, 0x7d]
}

/// The text after the first `fn NAME`, up to the next `fn NAME` (or the end
/// of the source), cut short at the first newline followed by `}`.
pub open spec fn body_bytes(b: Seq<u8>, name: &str) -> Option<Seq<u8>> {
    let h = fn_header(name);
    match first_from(b, h, 0) {
        None => None,
        Some(p) => {
            let a = p + h.len();
            let e = match first_from(b, h, a) {
                Some(q) => q,
                None => b.len() as int,
            };
            let piece = b.subrange(a, e);
            match first_from(piece, block_close(), 0) {
                Some(c) => Some(piece.subrange(0, c)),
                None => Some(piece),
            }
        },
    }
}

/// The bytes `fn NAME`, built at run time.
fn header_of(name: &str) -> (h: Vec<u8>)
    ensures
        h@ == fn_header(name),
{
    let nb = name.as_bytes();
    let mut needle: Vec<u8> = vec![0x66u8, 0x6e, 0x20];
    let mut k: usize = 0;
    while k < nb.len()
        invariant
            k <= nb.len(),
            needle@ == seq![0x66u8, 0x6e, 0x20] + nb@.subrange(0, k as int),
        decreases nb.len() - k,
    {
        needle.push(nb[k]);
        k = k + 1;
        assert(needle@ =~= seq![0x66u8, 0x6e, 0x20] + nb@.subrange(0, k as int));
    }
    assert(needle@ =~= fn_header(name));
    needle
}

/// The source defines a function called `name`.
pub open spec fn has_fn(b: Seq<u8>, name: &str) -> bool {
    first_from(b, fn_header(name), 0) is Some
}

/// The body of `fn NAME` in `src`, for asserting that a shader applies a
/// constant rather than merely defining one that matches.
pub fn fn_body_in<'a>(src: &'a str, name: &str) -> (body: &'a str)
    requires
        has_fn(src.spec_bytes(), name),
    ensures
        body_bytes(src.spec_bytes(), name) == Some(body.spec_bytes()),
{
    let b = src.as_bytes();
    let ghost bs = src.spec_bytes();
    let needle = header_of(name);
    let ghost h = fn_header(name);
    let p = match find_from(b, needle.as_slice(), 0) {
        Some(p) => p,
        None => {
            proof {
                assert(false);
            }
            0
        },
    };
    proof {
        lemma_first_from(bs, h, 0);
        assert(b@ == bs);
        assert(occurs_at(bs, h, p as int));
        assert(needle@.len() == h.len());
        assert(p + h.len() <= b.len());
    }
    let a = p + needle.len();
    let e = match find_from(b, needle.as_slice(), a) {
        Some(q) => q,
        None => b.len(),
    };
    proof {
        lemma_first_from(bs, h, a as int);
        // The header is valid UTF-8 that starts on a boundary, so it also
        // ends on one.
        assert(bs.subrange(p as int, a as int) == h);
        assert(h[0] == 0x66u8);
        assert(bs.subrange(p as int, a as int)[0] == bs[p as int]);
        lemma_boundary(bs, p as int);
        let x = bs.subrange(p as int, bs.len() as int);
        assert(x.subrange(0, h.len() as int) =~= h);
        assert(valid_utf8(seq![0x66u8, 0x6e, 0x20])) by {
            reveal_with_fuel(valid_utf8, 4);
        }
        assert(valid_utf8(name.spec_bytes()));
        lemma_valid_prefix_boundary(x, h.len() as int);
        lemma_boundary(x, h.len() as int);
        if a < bs.len() {
            assert(x[h.len() as int] == bs[a as int]);
        }
        if e < bs.len() {
            assert(bs.subrange(e as int, e + h.len())[0] == bs[e as int]);
        }
    }
    let piece = vstd::slice::slice_subrange(b, a, e);
    let close: Vec<u8> = vec![0x0au8, 0x7d];
    assert(close@ =~= block_close());
    let end = match find_from(piece, close.as_slice(), 0) {
        Some(c) => {
            proof {
                lemma_first_from(piece@, block_close(), 0);
                assert(piece@.subrange(c as int, c + 2)[0] == piece@[c as int]);
                assert(piece@[c as int] == bs[a + c]);
            }
            a + c
        },
        None => e,
    };
    let body = substr(src, a, end);
    assert(body.spec_bytes() =~= body_bytes(bs, name).unwrap());
    body
}

/// The body of `fn NAME` in the shader source, or `None` where the shader
/// defines no such function.
pub fn fn_body<'a>(shader: &'a str, name: &str) -> (body: Option<&'a str>)
    ensures
        match body {
            Some(text) => body_bytes(shader.spec_bytes(), name) == Some(text.spec_bytes()),
            None => body_bytes(shader.spec_bytes(), name) is None,
        },
{
    let needle = header_of(name);
    match find_from(shader.as_bytes(), needle.as_slice(), 0) {
        Some(_) => Some(fn_body_in(shader, name)),
        None => None,
    }
}

/// A matrix given as its three columns one after another, laid out by rows:
/// WGSL's `mat3x3` constructor takes columns where a row-major matrix keeps
/// rows, which is why this transposes rather than copying straight through.
pub fn columns_to_rows<T: Copy>(columns: &[T]) -> (m: [[T; 3]; 3])
    requires
        columns@.len() == 9,
    ensures
        forall|row: int, column: int|
            0 <= row < 3 && 0 <= column < 3 ==> #[trigger] m[row][column] == columns@[column * 3
                + row],
{
    [
        [columns[0], columns[3], columns[6]],
        [columns[1], columns[4], columns[7]],
        [columns[2], columns[5], columns[8]],
    ]
}

/// Literals come out in source order and never overlap; each is non-empty,
/// opens where a literal may start (so never right after an identifier
/// character), and runs only over bytes that extend a literal.
pub proof fn lemma_literal_spans_well_formed(b: Seq<u8>, i: int)
    requires
        0 <= i,
    ensures
        forall|k: int|
            #![trigger literal_spans(b, i)[k]]
            0 <= k < literal_spans(b, i).len() ==> {
                let (start, end) = literal_spans(b, i)[k];
                &&& i <= start < end <= b.len()
                &&& starts_literal(b, start)
                &&& forall|m: int| start < m < end ==> continues_literal(b, m)
            },
        forall|k: int|
            #![trigger literal_spans(b, i)[k]]
            0 <= k < literal_spans(b, i).len() - 1 ==> literal_spans(b, i)[k].1 <= literal_spans(
                b,
                i,
            )[k + 1].0,
    decreases b.len() - i,
{
    if i >= b.len() {
    } else if starts_literal(b, i) {
        let e = literal_end(b, i + 1);
        lemma_literal_end(b, i + 1);
        lemma_literal_spans_well_formed(b, e);
        let rest = literal_spans(b, e);
        let all = literal_spans(b, i);
        assert(all == seq![(i, e)] + rest);
        assert forall|k: int| 0 <= k < all.len() - 1 implies #[trigger] all[k].1 <= all[k + 1].0 by {
            if k == 0 {
                if rest.len() > 0 {
                    assert(all[1] == rest[0]);
                }
            } else {
                assert(all[k] == rest[k - 1]);
                assert(all[k + 1] == rest[k]);
            }
        }
        assert forall|k: int| 0 <= k < all.len() implies {
            let (start, end) = #[trigger] all[k];
            &&& i <= start < end <= b.len()
            &&& starts_literal(b, start)
            &&& forall|m: int| start < m < end ==> continues_literal(b, m)
        } by {
            if k > 0 {
                assert(all[k] == rest[k - 1]);
            }
        }
    } else {
        lemma_literal_spans_well_formed(b, i + 1);
        assert(literal_spans(b, i) == literal_spans(b, i + 1));
    }
}

/// Scanning from `i`, a literal never starts just after a sign or point
/// that stands before it, unless that sign or point directly continues an
/// identifier.
proof fn lemma_signs_stay_with_their_digits(b: Seq<u8>, i: int)
    requires
        0 <= i,
        0 < i < b.len() && is_digit(b[i]) && (b[i - 1] == 0x2d || b[i - 1] == 0x2b || b[i - 1]
            == 0x2e) ==> follows_identifier(b, i - 1),
    ensures
        forall|k: int|
            #![trigger literal_spans(b, i)[k]]
            0 <= k < literal_spans(b, i).len() ==> {
                let s = literal_spans(b, i)[k].0;
                0 < s < b.len() && is_digit(b[s]) && (b[s - 1] == 0x2d || b[s - 1] == 0x2b
                    || b[s - 1] == 0x2e) ==> follows_identifier(b, s - 1)
            },
    decreases b.len() - i,
{
    if i >= b.len() {
    } else if starts_literal(b, i) {
        let e = literal_end(b, i + 1);
        lemma_literal_end(b, i + 1);
        lemma_signs_stay_with_their_digits(b, e);
        let rest = literal_spans(b, e);
        let all = literal_spans(b, i);
        assert(all == seq![(i, e)] + rest);
        assert forall|k: int| 0 < k < all.len() implies all[k] == rest[k - 1] by {}
    } else {
        lemma_signs_stay_with_their_digits(b, i + 1);
        assert(literal_spans(b, i) == literal_spans(b, i + 1));
    }
}

/// A sign or point directly before a number's digits is part of the literal
/// whatever punctuation comes before it (`(`, `,`, `=` ...): no literal
/// starts with a digit just after a `-`, `+` or `.` unless that `-`, `+` or
/// `.` itself follows a letter, digit or underscore, where it belongs to a
/// name, an operator or an earlier literal.
pub proof fn lemma_literals_keep_their_signs(b: Seq<u8>)
    ensures
        forall|k: int|
            #![trigger literal_spans(b, 0)[k]]
            0 <= k < literal_spans(b, 0).len() ==> {
                let s = literal_spans(b, 0)[k].0;
                0 < s < b.len() && is_digit(b[s]) && (b[s - 1] == 0x2d || b[s - 1] == 0x2b
                    || b[s - 1] == 0x2e) ==> s >= 2 && (char_is_alphanumeric(b[s - 2] as char)
                    || b[s - 2] == 0x5f)
            },
{
    lemma_signs_stay_with_their_digits(b, 0);
}

/// From `i` on, every digit that does not follow a letter, digit or
/// underscore lies inside a literal found scanning from `i`, and every such
/// literal runs until a byte that cannot extend a number.
proof fn lemma_numbers_are_read_whole(b: Seq<u8>, i: int)
    requires
        0 <= i,
    ensures
        forall|j: int|
            i <= j < b.len() && is_digit(b[j]) && !(j > 0 && (char_is_alphanumeric(
                b[j - 1] as char,
            ) || b[j - 1] == 0x5f)) ==> exists|k: int|
                0 <= k < literal_spans(b, i).len() && #[trigger] literal_spans(b, i)[k].0 <= j
                    < literal_spans(b, i)[k].1,
        forall|k: int|
            #![trigger literal_spans(b, i)[k]]
            0 <= k < literal_spans(b, i).len() ==> {
                let e = literal_spans(b, i)[k].1;
                e == b.len() || !(is_digit(b[e]) || b[e] == 0x2e || b[e] == 0x65 || b[e] == 0x45
                    || ((b[e] == 0x2d || b[e] == 0x2b) && (b[e - 1] == 0x65 || b[e - 1]
                    == 0x45)))
            },
    decreases b.len() - i,
{
    if i >= b.len() {
    } else if starts_literal(b, i) {
        let e = literal_end(b, i + 1);
        lemma_literal_end(b, i + 1);
        lemma_numbers_are_read_whole(b, e);
        let rest = literal_spans(b, e);
        let all = literal_spans(b, i);
        assert(all == seq![(i, e)] + rest);
        assert forall|k: int| 0 < k < all.len() implies all[k] == rest[k - 1] by {}
        assert forall|j: int|
            i <= j < b.len() && is_digit(b[j]) && !(j > 0 && (char_is_alphanumeric(
                b[j - 1] as char,
            ) || b[j - 1] == 0x5f)) implies exists|k: int|
            0 <= k < all.len() && #[trigger] all[k].0 <= j < all[k].1 by {
            if j < e {
                assert(all[0].0 <= j < all[0].1);
            } else {
                let k = choose|k: int| 0 <= k < rest.len() && #[trigger] rest[k].0 <= j < rest[k].1;
                assert(all[k + 1] == rest[k]);
            }
        }
    } else {
        lemma_numbers_are_read_whole(b, i + 1);
        assert(literal_spans(b, i) == literal_spans(b, i + 1));
    }
}

/// Every number is read whole: each digit that does not continue a name
/// (as the 3 and 32 of `vec3<f32>` do) lies inside a literal, and each
/// literal runs on until a byte that cannot extend a number, so exponents
/// such as `1.5e-3` are kept in one piece.
pub proof fn lemma_every_number_is_read_whole(b: Seq<u8>)
    ensures
        forall|j: int|
            0 <= j < b.len() && is_digit(b[j]) && !(j > 0 && (char_is_alphanumeric(
                b[j - 1] as char,
            ) || b[j - 1] == 0x5f)) ==> exists|k: int|
                0 <= k < literal_spans(b, 0).len() && #[trigger] literal_spans(b, 0)[k].0 <= j
                    < literal_spans(b, 0)[k].1,
        forall|k: int|
            #![trigger literal_spans(b, 0)[k]]
            0 <= k < literal_spans(b, 0).len() ==> {
                let e = literal_spans(b, 0)[k].1;
                e == b.len() || !(is_digit(b[e]) || b[e] == 0x2e || b[e] == 0x65 || b[e] == 0x45
                    || ((b[e] == 0x2d || b[e] == 0x2b) && (b[e - 1] == 0x65 || b[e - 1]
                    == 0x45)))
            },
{
    lemma_numbers_are_read_whole(b, 0);
}

/// `line_start` is just after a newline (or the start of the text), with
/// no newline between it and `p`.
proof fn lemma_line_start(b: Seq<u8>, p: int)
    requires
        0 <= p <= b.len(),
    ensures
        0 <= line_start(b, p) <= p,
        line_start(b, p) == 0 || b[line_start(b, p) - 1] == 0x0a,
        forall|r: int| line_start(b, p) <= r < p ==> b[r] != 0x0a,
    decreases p,
{
    if p > 0 && b[p - 1] != 0x0a {
        lemma_line_start(b, p - 1);
    }
}

/// A declaration is read only from a `const` that opens its line: the
/// declaration answered for `name` is the text after a `const NAME` whose
/// line holds nothing but white space before it, up to the `;` that ends
/// it. A `const` in a comment, or after code on its line, is never the one
/// read, wherever on the line the other characters stand.
pub proof fn lemma_a_declaration_opens_its_line(b: Seq<u8>, name: &str)
    ensures
        declared_bytes(b, name) matches Ok(d) ==> exists|p: int|
            #![trigger occurs_at(b, const_keyword(), p)]
            {
                let a = p + 6 + name.spec_bytes().len();
                &&& occurs_at(b, const_keyword(), p)
                &&& occurs_at(b, name.spec_bytes(), p + 6)
                &&& forall|q: int|
                    #![trigger b.subrange(q, p)]
                    0 <= q <= p && (q == 0 || b[q - 1] == 0x0a) && (forall|r: int|
                        q <= r < p ==> b[r] != 0x0a) ==> forall|k: int|
                        0 <= k < decode_utf8(b.subrange(q, p)).len() ==> is_white_space(
                            #[trigger] decode_utf8(b.subrange(q, p))[k],
                        )
                &&& a + d.len() < b.len()
                &&& d == b.subrange(a, a + d.len())
                &&& b[a + d.len()] == 0x3b
                &&& forall|k: int| 0 <= k < d.len() ==> d[k] != 0x3b
            },
{
    lemma_first_declaration(b, name, 0);
    lemma_declaration_holds_no_semicolon(b, name);
    if let Some(p) = first_declaration(b, name, 0) {
        let a = p + 6 + name.spec_bytes().len();
        lemma_first_from(b, seq![0x3bu8], a);
        if let Some(e) = first_from(b, seq![0x3bu8], a) {
            let d = b.subrange(a, e);
            assert(b.subrange(e, e + 1)[0] == b[e]);
            lemma_line_start(b, p);
            let ls = line_start(b, p);
            assert forall|q: int|
                #![trigger b.subrange(q, p)]
                0 <= q <= p && (q == 0 || b[q - 1] == 0x0a) && (forall|r: int|
                    q <= r < p ==> b[r] != 0x0a) implies forall|k: int|
                0 <= k < decode_utf8(b.subrange(q, p)).len() ==> is_white_space(
                    #[trigger] decode_utf8(b.subrange(q, p))[k],
                ) by {
                if q < ls {
                    assert(b[ls - 1] == 0x0a);
                } else if q > ls {
                    assert(b[q - 1] == 0x0a);
                }
                assert(q == ls);
            }
            assert(d == b.subrange(a, a + d.len()));
            assert(occurs_at(b, const_keyword(), p));
        }
    }
}

/// `first_declaration` answers with the leftmost declaration of `name` at or
/// after `from`.
pub proof fn lemma_first_declaration(b: Seq<u8>, name: &str, from: int)
    requires
        0 <= from,
    ensures
        match first_declaration(b, name, from) {
            Some(p) => from <= p && declares_at(b, name, p) && forall|q: int|
                from <= q < p ==> !declares_at(b, name, q),
            None => forall|q: int| from <= q ==> !declares_at(b, name, q),
        },
    decreases b.len() + 1 - from,
{
    if from > b.len() {
    } else if declares_at(b, name, from) {
    } else {
        lemma_first_declaration(b, name, from + 1);
    }
}

/// The first characters of two valid texts, one of which starts with the
/// other, are the same.
proof fn lemma_same_first_char(y: Seq<u8>, z: Seq<u8>)
    requires
        valid_utf8(y),
        valid_utf8(z),
        0 < z.len() <= y.len(),
        y.subrange(0, z.len() as int) == z,
    ensures
        decode_utf8(y).len() > 0,
        decode_utf8(z).len() > 0,
        decode_utf8(y)[0] == decode_utf8(z)[0],
{
    assert(y[0] == z[0]) by {
        assert(y.subrange(0, z.len() as int)[0] == y[0]);
    }
    let l = length_of_first_scalar(z);
    assert(valid_first_scalar(z));
    assert(1 <= l <= z.len());
    if l >= 2 {
        assert(y.subrange(0, z.len() as int)[1] == y[1]);
    }
    if l >= 3 {
        assert(y.subrange(0, z.len() as int)[2] == y[2]);
    }
    if l >= 4 {
        assert(y.subrange(0, z.len() as int)[3] == y[3]);
    }
    assert(decode_first_scalar(y) == decode_first_scalar(z));
}

/// An identifier that is `n1` and one that is `n2` at the same offset, with
/// `n1` no longer than `n2`, are the same name.
proof fn lemma_names_at_unique(b: Seq<u8>, i: int, n1: &str, n2: &str)
    requires
        valid_utf8(b),
        0 < i,
        b[i - 1] <= 0x7f,
        names_at(b, i, n1),
        names_at(b, i, n2),
        n1.spec_bytes().len() <= n2.spec_bytes().len(),
    ensures
        n1@ == n2@,
{
    let x1 = n1.spec_bytes();
    let x2 = n2.spec_bytes();
    assert(x2.subrange(0, x1.len() as int) =~= x1) by {
        assert forall|k: int| 0 <= k < x1.len() implies x2[k] == x1[k] by {
            assert(b.subrange(i, i + x1.len())[k] == b[i + k]);
            assert(b.subrange(i, i + x2.len())[k] == b[i + k]);
        }
    }
    if x1.len() == x2.len() {
        assert(x1 =~= x2);
        assert(decode_utf8(x1) == n1@);
        assert(decode_utf8(x2) == n2@);
    } else {
        let j = i + x1.len();
        let z = x2.subrange(x1.len() as int, x2.len() as int);
        let y = b.subrange(j, b.len() as int);
        // Where `n1` ends inside `n2`, the text goes on with the rest of `n2`.
        lemma_valid_prefix_boundary(x2, x1.len() as int);
        decode_utf8_split(x2, x1.len() as int);
        valid_utf8_split(x2, x1.len() as int);
        assert(decode_utf8(x2) == n2@);
        assert(decode_utf8(x1) == n1@);
        assert(n2@ == n1@ + decode_utf8(z));
        // ... and `j` is a boundary of the source, so the text after it is
        // valid and its first character is the first of that rest.
        lemma_after_ascii(b, i);
        lemma_boundary(b, i);
        let x = b.subrange(i, b.len() as int);
        valid_utf8_split(b, i);
        assert(x.subrange(0, x1.len() as int) =~= x1) by {
            assert forall|k: int| 0 <= k < x1.len() implies x[k] == x1[k] by {
                assert(b.subrange(i, i + x1.len())[k] == b[i + k]);
            }
        }
        lemma_valid_prefix_boundary(x, x1.len() as int);
        lemma_boundary(x, x1.len() as int);
        assert(x[x1.len() as int] == b[j]);
        lemma_boundary(b, j);
        valid_utf8_split(b, j);
        assert(y.subrange(0, z.len() as int) =~= z) by {
            assert forall|k: int| 0 <= k < z.len() implies y[k] == z[k] by {
                assert(b.subrange(i, i + x2.len())[x1.len() + k] == b[j + k]);
            }
        }
        lemma_same_first_char(y, z);
        assert(n2@[n1@.len() as int] == decode_utf8(z)[0]);
        assert(is_ident_char(n2@[n1@.len() as int]));
    }
}

/// A declaration names one identifier: a declaration of `n1` is never also a
/// declaration of a different `n2`, so a name never answers for a longer
/// one that it is a prefix of.
pub proof fn lemma_one_declaration_one_name(b: Seq<u8>, n1: &str, n2: &str, p: int)
    requires
        valid_utf8(b),
        declares_at(b, n1, p),
        declares_at(b, n2, p),
    ensures
        n1@ == n2@,
{
    assert(b.subrange(p, p + 6)[5] == b[p + 5]);
    if n1.spec_bytes().len() <= n2.spec_bytes().len() {
        lemma_names_at_unique(b, p + 6, n1, n2);
    } else {
        lemma_names_at_unique(b, p + 6, n2, n1);
    }
}

/// A declaration runs up to its first `;`, so it holds none.
pub proof fn lemma_declaration_holds_no_semicolon(b: Seq<u8>, name: &str)
    ensures
        declared_bytes(b, name) matches Ok(d) ==> forall|k: int|
            0 <= k < d.len() ==> d[k] != 0x3b,
{
    lemma_first_declaration(b, name, 0);
    if let Some(p) = first_declaration(b, name, 0) {
        let a = p + 6 + name.spec_bytes().len();
        lemma_first_from(b, seq![0x3bu8], a);
        if let Some(e) = first_from(b, seq![0x3bu8], a) {
            let d = b.subrange(a, e);
            assert forall|k: int| 0 <= k < d.len() implies d[k] != 0x3b by {
                let q = a + k;
                assert(d[k] == b[q]);
                if d[k] == 0x3b {
                    assert(b.subrange(q, q + 1) =~= seq![0x3bu8]);
                    assert(occurs_at(b, seq![0x3bu8], q));
                }
            }
        }
    }
}

/// What a declaration holds is what was written: a source that opens with
/// `const NAME VALUE;` reads back `VALUE` for `NAME`, whatever follows.
pub proof fn lemma_reads_back_a_declaration(src: &str, name: &str, value: Seq<u8>, after: Seq<u8>)
    requires
        src.spec_bytes() == const_keyword() + name.spec_bytes() + value + seq![0x3bu8] + after,
        forall|k: int| 0 <= k < name@.len() ==> is_ident_char(#[trigger] name@[k]),
        forall|k: int| 0 <= k < value.len() ==> #[trigger] value[k] != 0x3b,
        !is_ident_char(decode_utf8(value + seq![0x3bu8] + after)[0]),
    ensures
        declared_bytes(src.spec_bytes(), name) == Ok::<Seq<u8>, ProbeError>(value),
{
    let b = src.spec_bytes();
    let n = name.spec_bytes();
    let m = n.len() as int;
    let e = 6 + m + value.len();
    assert(b.subrange(0, 6) =~= const_keyword());
    assert(b.subrange(0, 0) =~= Seq::<u8>::empty());
    assert(decode_utf8(Seq::<u8>::empty()) =~= Seq::<char>::empty());
    assert(blank_before(b, 0));
    assert(b.subrange(6, 6 + m) =~= n);
    assert(b.subrange(6 + m, b.len() as int) =~= value + seq![0x3bu8] + after);
    assert(names_at(b, 6, name));
    assert(declares_at(b, name, 0));
    assert(first_declaration(b, name, 0) == Some(0int));
    assert(b.subrange(e, e + 1) =~= seq![0x3bu8]);
    assert forall|q: int| 6 + m <= q < e implies !occurs_at(b, seq![0x3bu8], q) by {
        assert(b[q] == value[q - 6 - m]);
        assert(b.subrange(q, q + 1)[0] == b[q]);
    }
    lemma_first_from_is(b, seq![0x3bu8], 6 + m, e);
    assert(b.subrange(6 + m, e) =~= value);
}

/// What a function holds is what was written: a source that is `fn NAME`
/// followed by text that holds neither another `fn NAME` nor a newline
/// followed by `}` reads back that text as the body.
pub proof fn lemma_reads_back_a_function(src: &str, name: &str, text: Seq<u8>)
    requires
        src.spec_bytes() == fn_header(name) + text,
        forall|q: int| !occurs_at(text, fn_header(name), q),
        forall|q: int| !occurs_at(text, block_close(), q),
    ensures
        body_bytes(src.spec_bytes(), name) == Some(text),
{
    let b = src.spec_bytes();
    let h = fn_header(name);
    let a = h.len() as int;
    assert(b.subrange(0, a) =~= h);
    assert(first_from(b, h, 0) == Some(0int));
    assert forall|q: int| a <= q implies !occurs_at(b, h, q) by {
        if occurs_at(b, h, q) {
            assert(text.subrange(q - a, q - a + h.len()) =~= b.subrange(q, q + h.len()));
            assert(occurs_at(text, h, q - a));
        }
    }
    lemma_first_from_none(b, h, a);
    assert(b.subrange(a, b.len() as int) =~= text);
    lemma_first_from_none(text, block_close(), 0);
}

/// What a constructor holds is what was written: a declaration `BEFORE(ARGS)AFTER`,
/// with no `(` before the constructor's and no `)` after its own, yields
/// `ARGS` as its payload, parentheses inside `ARGS` included.
pub proof fn lemma_reads_back_a_constructor(
    decl: Seq<u8>,
    before: Seq<u8>,
    args: Seq<u8>,
    after: Seq<u8>,
)
    requires
        decl == before + seq![0x28u8] + args + seq![0x29u8] + after,
        forall|k: int| 0 <= k < before.len() ==> #[trigger] before[k] != 0x28,
        forall|k: int| 0 <= k < after.len() ==> #[trigger] after[k] != 0x29,
    ensures
        payload_bytes(decl) == Ok::<Seq<u8>, ProbeError>(args),
{
    let open = before.len() as int;
    let close = open + 1 + args.len();
    assert(decl.subrange(open, open + 1) =~= seq![0x28u8]);
    assert forall|q: int| 0 <= q < open implies !occurs_at(decl, seq![0x28u8], q) by {
        assert(decl[q] == before[q]);
        assert(decl.subrange(q, q + 1)[0] == decl[q]);
    }
    lemma_first_from_is(decl, seq![0x28u8], 0, open);
    assert forall|r: int| close < r < decl.len() implies decl[r] != 0x29 by {
        assert(decl[r] == after[r - close - 1]);
    }
    lemma_last_byte_in_is(decl, 0x29u8, open, decl.len() as int, close);
    assert(decl.subrange(open + 1, close) =~= args);
}

} // verus!
