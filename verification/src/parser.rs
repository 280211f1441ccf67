//! The statement parser.
//!
//! A statement is a path of symbols joined by the separators `.`
//! (non-exclusive) and `!` (exclusive).  A symbol may not contain a
//! separator or one of the invalid characters `% $ @ # , ] [`; a leading,
//! trailing or doubled separator is a lex error.  A symbol starting with
//! an uppercase letter is an identifier (a pattern variable); any other
//! symbol is a literal, except that a symbol starting with a digit is
//! numeric.
//!
//! A numeric symbol is its digit string: it must consist of decimal
//! digits only ([`all_digits`]), and its canonical form — the digits
//! with leading zeros dropped ([`canon_text`]) — is its identity, so
//! two spellings of the same number name one symbol.  This is the
//! library's whole numeric model: numbers are symbols, with no
//! arithmetic.  Real-number spellings beyond digit strings (such as an
//! exponent form, whose acceptance would hinge on floating-point
//! finiteness) are deliberately refused as invalid numerics rather than
//! evaluated.

use vstd::prelude::*;
use vstd::string::*;
use crate::errors::{Result, Error};
use crate::rellcore::{SID, NID, EdgeKind, RellE, RellN, RellSym, RellSymValue, SymV, SymTag,
    SIDGenerator};
use crate::vecmap::VecMap;

verus! {

pub open spec fn is_sep_char(c: char) -> bool {
    c == '.' || c == '!'
}

pub open spec fn is_invalid_symbol_char(c: char) -> bool {
    c == '%' || c == '$' || c == '@' || c == '#' || c == ',' || c == ']' || c == '['
}

pub open spec fn is_digit_char(c: char) -> bool {
    48 <= c as u32 <= 57
}

pub open spec fn is_upper_char(c: char) -> bool {
    65 <= c as u32 <= 90
}

/// The first position at or after `i` holding a separator or an invalid
/// character, or the length of the text if there is none.
pub open spec fn eos_from(s: Seq<char>, i: int) -> int
    decreases s.len() - i,
{
    if i < 0 || i >= s.len() {
        s.len() as int
    } else if is_sep_char(s[i]) || is_invalid_symbol_char(s[i]) {
        i
    } else {
        eos_from(s, i + 1)
    }
}

pub proof fn lemma_eos_from_props(s: Seq<char>, i: int)
    requires
        0 <= i,
    ensures
        i <= eos_from(s, i) <= s.len() || eos_from(s, i) == s.len(),
        i <= s.len() ==> i <= eos_from(s, i) <= s.len(),
        eos_from(s, i) < s.len() ==> (is_sep_char(s[eos_from(s, i)]) || is_invalid_symbol_char(
            s[eos_from(s, i)],
        )),
        forall|j: int|
            i <= j < eos_from(s, i) ==> !(is_sep_char(#[trigger] s[j]) || is_invalid_symbol_char(
                s[j],
            )),
    decreases s.len() - i,
{
    if i < s.len() && !(is_sep_char(s[i]) || is_invalid_symbol_char(s[i])) {
        lemma_eos_from_props(s, i + 1);
    }
}

/// What scanning for the end of a symbol from `start` yields: the
/// position of the next separator (which may neither open the symbol nor
/// end the statement), the end of the text, or a lex error.
pub open spec fn spec_find_eos(s: Seq<char>, start: int) -> Result<usize> {
    let e = eos_from(s, start);
    if e == s.len() {
        Ok(s.len() as usize)
    } else if is_invalid_symbol_char(s[e]) {
        Err(Error::InvalidChar(s[e], e as usize))
    } else if e == start || e == s.len() - 1 {
        Err(Error::InvalidChar(s[e], e as usize))
    } else {
        Ok(e as usize)
    }
}

#[derive(Debug, Copy, Clone, PartialEq)]
pub enum ParseToken {
    Symbol(SID, usize, usize),
    Exclusive,
    NonExclusive,
    EOL,
}

/// The token sequence of the statement from position `scan` on: each
/// symbol is followed by the separator after it, or by `EOL` at the end.
pub open spec fn spec_tokenize_from<SF: SIDGenerator>(
    sf: &SF,
    s: Seq<char>,
    scan: int,
) -> Result<Seq<ParseToken>>
    decreases s.len() - scan,
    when 0 <= scan
    via spec_tokenize_from_dec::<SF>
{
    if scan >= s.len() {
        Ok(Seq::empty())
    } else {
        let e = eos_from(s, scan);
        if e < s.len() && (is_invalid_symbol_char(s[e]) || e == scan || e == s.len() - 1) {
            Err(Error::InvalidChar(s[e], e as usize))
        } else {
            let tok = ParseToken::Symbol(
                sf.sid_spec(canon_text(s.subrange(scan, e))),
                scan as usize,
                e as usize,
            );
            if e == s.len() {
                Ok(seq![tok, ParseToken::EOL])
            } else {
                let sep = if s[e] == '.' {
                    ParseToken::NonExclusive
                } else {
                    ParseToken::Exclusive
                };
                match spec_tokenize_from(sf, s, e + 1) {
                    Err(er) => Err(er),
                    Ok(rest) => Ok(seq![tok, sep] + rest),
                }
            }
        }
    }
}

#[via_fn]
proof fn spec_tokenize_from_dec<SF: SIDGenerator>(sf: &SF, s: Seq<char>, scan: int) {
    lemma_eos_from_props(s, scan);
}

/// The classification of a symbol by its first character.
pub open spec fn classify(text: Seq<char>) -> SymTag {
    if text.len() == 0 {
        SymTag::Literal
    } else if is_digit_char(text[0]) {
        SymTag::Numeric
    } else if is_upper_char(text[0]) {
        SymTag::Identifier
    } else {
        SymTag::Literal
    }
}

pub open spec fn all_digits(text: Seq<char>) -> bool {
    forall|k: int| 0 <= k < text.len() ==> is_digit_char(#[trigger] text[k])
}

/// The first position at or after `i` holding a character other than
/// `0`, or the length of the text if there is none.
pub open spec fn first_nonzero(t: Seq<char>, i: int) -> int
    decreases t.len() - i,
{
    if i < 0 || i >= t.len() {
        t.len() as int
    } else if t[i] != '0' {
        i
    } else {
        first_nonzero(t, i + 1)
    }
}

pub proof fn lemma_first_nonzero_props(t: Seq<char>, i: int)
    requires
        0 <= i <= t.len(),
    ensures
        i <= first_nonzero(t, i) <= t.len(),
        first_nonzero(t, i) < t.len() ==> t[first_nonzero(t, i)] != '0',
        forall|q: int| i <= q < first_nonzero(t, i) ==> #[trigger] t[q] == '0',
    decreases t.len() - i,
{
    if i < t.len() && t[i] == '0' {
        lemma_first_nonzero_props(t, i + 1);
    }
}

/// The canonical spelling of a symbol.  A valid numeric symbol (digit
/// strings are the library's whole numeric form) drops its leading
/// zeros, keeping a single `0` when nothing else remains, so that two
/// spellings of the same number are one symbol; every other text is its
/// own canonical form.
pub open spec fn canon_text(t: Seq<char>) -> Seq<char> {
    if classify(t) == SymTag::Numeric && all_digits(t) {
        let k = first_nonzero(t, 0);
        if k == t.len() {
            t.subrange(t.len() - 1, t.len() as int)
        } else {
            t.subrange(k, t.len() as int)
        }
    } else {
        t
    }
}

pub proof fn lemma_canon_text_len(t: Seq<char>)
    requires
        t.len() >= 1,
    ensures
        canon_text(t).len() >= 1,
{
    if classify(t) == SymTag::Numeric && all_digits(t) {
        lemma_first_nonzero_props(t, 0);
    }
}

/// Computes the canonical spelling of a symbol text.
fn canon_symbol<'a>(sym: &'a str) -> (r: &'a str)
    ensures
        r@ == canon_text(sym@),
{
    let len = sym.unicode_len();
    if len == 0 {
        return sym;
    }
    let c0 = sym.get_char(0);
    let c0u = c0 as u32;
    if !(c0u >= 48 && c0u <= 57) {
        proof {
            assert(classify(sym@) != SymTag::Numeric);
        }
        return sym;
    }
    let mut k: usize = 0;
    while k < len
        invariant
            k <= len,
            len == sym@.len(),
            forall|q: int| 0 <= q < k ==> is_digit_char(#[trigger] sym@[q]),
        decreases len - k,
    {
        let c = sym.get_char(k);
        let cu = c as u32;
        if cu < 48 || cu > 57 {
            proof {
                assert(!all_digits(sym@));
            }
            return sym;
        }
        k = k + 1;
    }
    let mut z: usize = 0;
    while z < len && sym.get_char(z) == '0'
        invariant
            z <= len,
            len == sym@.len(),
            forall|q: int| 0 <= q < z ==> #[trigger] sym@[q] == '0',
            first_nonzero(sym@, 0) == first_nonzero(sym@, z as int),
        decreases len - z,
    {
        z = z + 1;
    }
    proof {
        if z < len {
            assert(first_nonzero(sym@, z as int) == z);
        }
        assert(all_digits(sym@));
        assert(classify(sym@) == SymTag::Numeric);
    }
    if z == len {
        sym.substring_char(len - 1, len)
    } else {
        sym.substring_char(z, len)
    }
}

/// One element of a parsed path: the symbol's SID, the edge kind implied
/// by the separator following it, and its text.
pub struct PathElem {
    pub sid: SID,
    pub kind: EdgeKind,
    pub text: Seq<char>,
}

pub open spec fn kind_of_sep(sep: ParseToken) -> EdgeKind {
    match sep {
        ParseToken::NonExclusive => EdgeKind::NonExclusive,
        ParseToken::Exclusive => EdgeKind::Exclusive,
        _ => EdgeKind::Empty,
    }
}

pub open spec fn elem_from(s: Seq<char>, symtok: ParseToken, septok: ParseToken) -> PathElem {
    match symtok {
        ParseToken::Symbol(sid, f, t) => PathElem {
            sid,
            kind: kind_of_sep(septok),
            text: canon_text(s.subrange(f as int, t as int)),
        },
        _ => PathElem { sid: 0, kind: EdgeKind::Empty, text: Seq::empty() },
    }
}

/// The path elements named by a token sequence, one per symbol/separator
/// pair.
pub open spec fn elems_of(s: Seq<char>, toks: Seq<ParseToken>) -> Seq<PathElem> {
    Seq::new((toks.len() / 2) as nat, |j: int| elem_from(s, toks[2 * j], toks[2 * j + 1]))
}

/// The parsed path of a statement whose tokenization succeeds.
pub open spec fn spec_parse_elems<SF: SIDGenerator>(sf: &SF, s: Seq<char>) -> Seq<PathElem> {
    elems_of(s, spec_tokenize_from(sf, s, 0)->Ok_0)
}

/// A parsed path is valid for insertion work when every numeric symbol
/// consists of digits only.
pub open spec fn path_valid(elems: Seq<PathElem>) -> bool {
    forall|j: int|
        0 <= j < elems.len() ==> (classify((#[trigger] elems[j]).text) == SymTag::Numeric
            ==> all_digits(elems[j].text))
}

/// Well-formedness of a token sequence produced by the tokenizer:
/// symbols at even positions with sane spans and SIDs, separators at odd
/// positions, `EOL` exactly at the end.
pub open spec fn tokens_shaped<SF: SIDGenerator>(sf: &SF, s: Seq<char>, toks: Seq<ParseToken>) -> bool {
    &&& toks.len() % 2 == 0
    &&& forall|j: int|
        0 <= j < toks.len() && j % 2 == 0 ==> ((#[trigger] toks[j]) matches ParseToken::Symbol(
            sid,
            f,
            t,
        ) && f < t <= s.len() && sid == sf.sid_spec(canon_text(s.subrange(f as int, t as int))))
    &&& forall|j: int|
        0 <= j < toks.len() && j % 2 == 1 ==> ((#[trigger] toks[j]) is NonExclusive || toks[j] is Exclusive
            || toks[j] is EOL)
    &&& forall|j: int| 0 <= j < toks.len() && j % 2 == 1 ==> ((#[trigger] toks[j]) is EOL <==> j == toks.len() - 1)
}

pub proof fn lemma_tokens_shape<SF: SIDGenerator>(sf: &SF, s: Seq<char>, scan: int)
    requires
        0 <= scan,
        s.len() <= usize::MAX,
        spec_tokenize_from(sf, s, scan) is Ok,
    ensures
        tokens_shaped(sf, s, spec_tokenize_from(sf, s, scan)->Ok_0),
        scan <= s.len() ==> spec_tokenize_from(sf, s, scan)->Ok_0.len() <= 2 * (s.len() - scan),
    decreases s.len() - scan,
{
    let toks = spec_tokenize_from(sf, s, scan)->Ok_0;
    if scan >= s.len() {
    } else {
        lemma_eos_from_props(s, scan);
        let e = eos_from(s, scan);
        if e == s.len() {
        } else {
            lemma_tokens_shape(sf, s, e + 1);
            let rest = spec_tokenize_from(sf, s, e + 1)->Ok_0;
            assert forall|j: int|
                0 <= j < toks.len() && j % 2 == 0 implies ((#[trigger] toks[j]) matches ParseToken::Symbol(
                sid,
                f,
                t,
            ) && f < t <= s.len() && sid == sf.sid_spec(canon_text(s.subrange(f as int, t as int)))) by {
                if j >= 2 {
                    assert(toks[j] == rest[j - 2]);
                }
            }
            assert forall|j: int|
                0 <= j < toks.len() && j % 2 == 1 implies ((#[trigger] toks[j]) is NonExclusive
                || toks[j] is Exclusive || toks[j] is EOL) by {
                if j >= 2 {
                    assert(toks[j] == rest[j - 2]);
                }
            }
            assert forall|j: int|
                0 <= j < toks.len() && j % 2 == 1 implies ((#[trigger] toks[j]) is EOL <==> j
                == toks.len() - 1) by {
                if j >= 2 {
                    assert(toks[j] == rest[j - 2]);
                }
            }
        }
    }
}

pub struct RellParser;

impl RellParser {
    pub const NID_INVALID: NID = 0;

    /// Scans for the end of the symbol starting at `start`: the position
    /// of the next separator or the end of the statement.  A separator
    /// opening the symbol or closing the statement, or an invalid
    /// character, is a lex error.
    pub fn find_next_eos(statement: &str, start: usize) -> (r: Result<usize>)
        ensures
            r == spec_find_eos(statement@, start as int),
    {
        let len = statement.unicode_len();
        if start >= len {
            return Ok(len);
        }
        let mut i: usize = start;
        while i < len
            invariant
                start <= i <= len,
                len == statement@.len(),
                eos_from(statement@, start as int) == eos_from(statement@, i as int),
            decreases len - i,
        {
            let c = statement.get_char(i);
            if c == '.' || c == '!' {
                if i == start || i == len - 1 {
                    return Err(Error::InvalidChar(c, i));
                }
                return Ok(i);
            }
            if c == '%' || c == '$' || c == '@' || c == '#' || c == ',' || c == ']' || c == '[' {
                return Err(Error::InvalidChar(c, i));
            }
            i = i + 1;
        }
        Ok(len)
    }

    /// Tokenizes a statement into alternating symbol and separator
    /// tokens, ending with `EOL`; SIDs are assigned by `sidfactory`.
    pub fn tokenize<SF: SIDGenerator>(statement: &str, sidfactory: &SF) -> (r: Result<
        Vec<ParseToken>,
    >)
        requires
            sidfactory.sid_wf(),
        ensures
            match r {
                Ok(v) => spec_tokenize_from(sidfactory, statement@, 0) == Ok::<_, Error>(v@),
                Err(e) => spec_tokenize_from(sidfactory, statement@, 0) == Err::<Seq<ParseToken>, _>(e),
            },
    {
        let ghost s = statement@;
        let mut qt: Vec<ParseToken> = Vec::new();
        let mut scan: usize = 0;
        let len = statement.unicode_len();
        while scan < len
            invariant
                sidfactory.sid_wf(),
                len == s.len(),
                s == statement@,
                spec_tokenize_from(sidfactory, s, 0) == (match spec_tokenize_from(
                    sidfactory,
                    s,
                    scan as int,
                ) {
                    Ok(rest) => Ok::<_, Error>(qt@ + rest),
                    Err(e) => Err::<Seq<ParseToken>, _>(e),
                }),
            decreases len - scan,
        {
            proof {
                lemma_eos_from_props(s, scan as int);
            }
            let i_eos = match Self::find_next_eos(statement, scan) {
                Ok(e) => e,
                Err(er) => {
                    return Err(er);
                },
            };
            let ghost qt_old = qt@;
            let ghost scan_old = scan as int;
            let sym = statement.substring_char(scan, i_eos);
            let csym = canon_symbol(sym);
            let sid = sidfactory.get_sid(csym);
            qt.push(ParseToken::Symbol(sid, scan, i_eos));
            if i_eos == len {
                qt.push(ParseToken::EOL);
                proof {
                    let tok = ParseToken::Symbol(
                        sidfactory.sid_spec(canon_text(s.subrange(scan as int, i_eos as int))),
                        scan,
                        i_eos,
                    );
                    assert(qt@ =~= qt_old + seq![tok, ParseToken::EOL]);
                    assert(spec_tokenize_from(sidfactory, s, 0) == Ok::<_, Error>(qt@));
                }
                return Ok(qt);
            }
            let c = statement.get_char(i_eos);
            if c == '.' {
                qt.push(ParseToken::NonExclusive);
            } else {
                qt.push(ParseToken::Exclusive);
            }
            scan = i_eos + 1;
            proof {
                let tok = ParseToken::Symbol(
                    sidfactory.sid_spec(canon_text(s.subrange(scan_old, i_eos as int))),
                    scan_old as usize,
                    i_eos,
                );
                let sep = if s[i_eos as int] == '.' {
                    ParseToken::NonExclusive
                } else {
                    ParseToken::Exclusive
                };
                assert(qt@ =~= qt_old + seq![tok, sep]);
                let rr = spec_tokenize_from(sidfactory, s, scan as int);
                if rr is Ok {
                    assert(qt_old + (seq![tok, sep] + rr->Ok_0) =~= qt@ + rr->Ok_0);
                }
            }
        }
        proof {
            assert(qt@ =~= qt@ + Seq::<ParseToken>::empty());
        }
        Ok(qt)
    }

    /// Parses a statement into its path: one node (SID plus implied edge
    /// kind) and one symbol value per path element.  Numeric symbols
    /// must consist of digits only: a digit-initial symbol with any
    /// non-digit in it is refused as an invalid numeric.
    #[verifier::loop_isolation(false)]
    pub fn parse_simple_statement<SF: SIDGenerator>(statement: &str, sidfactory: &SF) -> (r:
        Result<(Vec<RellN>, Vec<RellSym>)>)
        requires
            sidfactory.sid_wf(),
        ensures
            spec_tokenize_from(sidfactory, statement@, 0) matches Err(e) ==> r == Err::<
                (Vec<RellN>, Vec<RellSym>),
                _,
            >(e),
            (spec_tokenize_from(sidfactory, statement@, 0) is Ok && path_valid(
                spec_parse_elems(sidfactory, statement@),
            )) ==> (r matches Ok(p) && parse_result_matches(
                p.0@,
                p.1@,
                spec_parse_elems(sidfactory, statement@),
            )),
            (spec_tokenize_from(sidfactory, statement@, 0) is Ok && !path_valid(
                spec_parse_elems(sidfactory, statement@),
            )) ==> (r matches Err(Error::CustomError(_))),
    {
        let ghost s = statement@;
        // brings the statement's character count, bounded by usize, into scope
        let _len = statement.unicode_len();
        let tokens = match Self::tokenize(statement, sidfactory) {
            Ok(t) => t,
            Err(e) => {
                return Err(e);
            },
        };
        proof {
            lemma_tokens_shape(sidfactory, s, 0);
        }
        let ghost elems = elems_of(s, tokens@);
        let n = tokens.len();
        let mut nodes: Vec<RellN> = Vec::new();
        let mut syms: Vec<RellSym> = Vec::new();
        let mut i: usize = 0;
        while i + 1 < n
            invariant
                sidfactory.sid_wf(),
                s == statement@,
                tokens_shaped(sidfactory, s, tokens@),
                n == tokens@.len(),
                i % 2 == 0,
                i <= n,
                elems == elems_of(s, tokens@),
                nodes@.len() == i / 2,
                syms@.len() == i / 2,
                forall|j: int| 0 <= j < i / 2 ==> node_matches(#[trigger] nodes@[j], elems[j]),
                forall|j: int|
                    0 <= j < i / 2 ==> (#[trigger] syms@[j])@ == (SymV {
                        tag: classify(elems[j].text),
                        text: elems[j].text,
                    }),
                forall|j: int|
                    0 <= j < i / 2 ==> (classify((#[trigger] elems[j]).text) == SymTag::Numeric
                        ==> all_digits(elems[j].text)),
            decreases n - i,
        {
            let (sid, f, t) = match tokens[i] {
                ParseToken::Symbol(sid, f, t) => (sid, f, t),
                _ => {
                    proof {
                        assert(false);
                    }
                    (0, 0, 0)
                },
            };
            let sym_text = statement.substring_char(f, t);
            let first = sym_text.get_char(0);
            let fc = first as u32;
            let val = if fc >= 48 && fc <= 57 {
                // numeric symbol: every character must be a digit
                let m = sym_text.unicode_len();
                let mut k: usize = 0;
                while k < m
                    invariant
                        m == sym_text@.len(),
                        k <= m,
                        forall|q: int| 0 <= q < k ==> is_digit_char(#[trigger] sym_text@[q]),
                    decreases m - k,
                {
                    let c = sym_text.get_char(k);
                    let cu = c as u32;
                    if cu < 48 || cu > 57 {
                        proof {
                            let j = i as int / 2;
                            assert(elems[j] == elem_from(s, tokens@[2 * j], tokens@[2 * j + 1]));
                            assert(!all_digits(sym_text@));
                            assert(canon_text(sym_text@) == sym_text@);
                            assert(elems[j].text =~= sym_text@);
                            assert(!is_digit_char(elems[j].text[k as int]));
                            assert(classify(elems[j].text) == SymTag::Numeric);
                            assert(!path_valid(elems));
                        }
                        return Err(
                            Error::CustomError(
                                String::from_str("INVALID NUMERIC SYMBOL"),
                            ),
                        );
                    }
                    k = k + 1;
                }
                let csym = canon_symbol(sym_text);
                RellSymValue::Numeric(String::from_str(csym))
            } else if fc >= 65 && fc <= 90 {
                proof {
                    assert(canon_text(sym_text@) == sym_text@);
                }
                RellSymValue::Identifier(String::from_str(sym_text))
            } else {
                proof {
                    assert(canon_text(sym_text@) == sym_text@);
                }
                RellSymValue::Literal(String::from_str(sym_text))
            };
            let edge = match tokens[i + 1] {
                ParseToken::Exclusive => RellE::Exclusive(sid, 0),
                ParseToken::NonExclusive => RellE::NonExclusive(VecMap::new()),
                _ => RellE::Empty,
            };
            nodes.push(RellN { edge, sym: sid });
            syms.push(RellSym::new(val));
            proof {
                assert(elems[i as int / 2] == elem_from(s, tokens@[i as int], tokens@[i as int + 1]));
                assert(elems[i as int / 2].text == canon_text(sym_text@));
                if classify(sym_text@) == SymTag::Numeric && all_digits(sym_text@) {
                    assert(classify(canon_text(sym_text@)) == SymTag::Numeric) by {
                        lemma_first_nonzero_props(sym_text@, 0);
                    }
                    assert(all_digits(canon_text(sym_text@))) by {
                        lemma_first_nonzero_props(sym_text@, 0);
                    }
                }
            }
            i = i + 2;
        }
        proof {
            assert(i == n);
            assert(elems.len() == n / 2);
        }
        Ok((nodes, syms))
    }
}

/// How a parsed node reflects its path element: the symbol's SID, the
/// implied edge kind, and for an exclusive edge the placeholder target.
pub open spec fn node_matches(node: RellN, elem: PathElem) -> bool {
    &&& node.sym == elem.sid
    &&& node.edge.kind() == elem.kind
    &&& node.edge.edge_wf()
    &&& match elem.kind {
        EdgeKind::Empty => node.edge.targets() == Map::<SID, NID>::empty(),
        EdgeKind::NonExclusive => node.edge.targets() == Map::<SID, NID>::empty(),
        EdgeKind::Exclusive => node.edge.targets() == Map::<SID, NID>::empty().insert(elem.sid, 0),
    }
}

/// How the parser's output reflects the parsed path: nodes and symbol
/// values in step with the path elements.
pub open spec fn parse_result_matches(
    nodes: Seq<RellN>,
    syms: Seq<RellSym>,
    elems: Seq<PathElem>,
) -> bool {
    &&& nodes.len() == elems.len()
    &&& syms.len() == elems.len()
    &&& forall|j: int| 0 <= j < elems.len() ==> node_matches(#[trigger] nodes[j], elems[j])
    &&& forall|j: int|
        0 <= j < elems.len() ==> (#[trigger] syms[j])@ == (SymV {
            tag: classify(elems[j].text),
            text: elems[j].text,
        })
    &&& path_valid(elems)
}

} // verus!
