use crate::kvp::{
    key_model, pair_model, pairs_model, Float, FloatModel, KeyValuePair, PairModel, Value,
    ValueModel,
};
use crate::lex::{
    digit_val, is_digit, toks_model, LexError, LexErrorKind, Position, Token, TokenModel,
};
use crate::text::{char_from_u32, string_push};
use core::mem::swap;
use vstd::prelude::*;
use vstd::string::StrSliceExecFns;

verus! {

/// Deserialization error kind.
#[derive(Debug, Clone, PartialEq, Eq)]
pub enum DeserErrorKind {
    /// Lexer error.
    Lex(LexErrorKind),
    /// Unexpected identifier token.
    UnexpectedIdentifier(String),
    /// Invalid key token.
    InvalidKey,
    /// Missing comma.
    MissingComma,
    /// Float casting error.
    FloatCast(String),
    /// Integer casting error.
    IntCast(String),
}

/// Deserialization error.
#[derive(Debug, Clone)]
pub struct DeserError {
    /// Token position.
    pub position: Position,
    /// Error kind.
    pub kind: DeserErrorKind,
}

impl DeserError {
    /// Creates a new deserialization error.
    pub fn new(position: Position, kind: DeserErrorKind) -> (r: Self)
        ensures
            deser_error_model(r) == (DeserErrorModel {
                position,
                kind: deser_error_kind_model(kind),
            }),
    {
        Self { position, kind }
    }
}

impl From<LexError> for DeserError {
    /// Wraps a lexer error, keeping its position.
    fn from(err: LexError) -> (r: Self) {
        Self::new(err.position, DeserErrorKind::Lex(err.kind))
    }
}

impl vstd::std_specs::convert::FromSpecImpl<LexError> for DeserError {
    open spec fn obeys_from_spec() -> bool {
        true
    }

    open spec fn from_spec(err: LexError) -> Self {
        DeserError { position: err.position, kind: DeserErrorKind::Lex(err.kind) }
    }
}

/// The mathematical model of a `DeserErrorKind`.
pub enum DeserErrorKindModel {
    /// Lexer error.
    Lex(LexErrorKind),
    /// Unexpected identifier token.
    UnexpectedIdentifier(Seq<char>),
    /// Invalid key token.
    InvalidKey,
    /// Missing comma.
    MissingComma,
    /// Float casting error.
    FloatCast(Seq<char>),
    /// Integer casting error.
    IntCast(Seq<char>),
}

/// The mathematical model of a `DeserError`.
pub struct DeserErrorModel {
    /// Token position.
    pub position: Position,
    /// Error kind.
    pub kind: DeserErrorKindModel,
}

/// The model of a `DeserErrorKind`.
pub open spec fn deser_error_kind_model(k: DeserErrorKind) -> DeserErrorKindModel {
    match k {
        DeserErrorKind::Lex(e) => DeserErrorKindModel::Lex(e),
        DeserErrorKind::UnexpectedIdentifier(s) => DeserErrorKindModel::UnexpectedIdentifier(s@),
        DeserErrorKind::InvalidKey => DeserErrorKindModel::InvalidKey,
        DeserErrorKind::MissingComma => DeserErrorKindModel::MissingComma,
        DeserErrorKind::FloatCast(s) => DeserErrorKindModel::FloatCast(s@),
        DeserErrorKind::IntCast(s) => DeserErrorKindModel::IntCast(s@),
    }
}

/// The model of a `DeserError`.
pub open spec fn deser_error_model(e: DeserError) -> DeserErrorModel {
    DeserErrorModel { position: e.position, kind: deser_error_kind_model(e.kind) }
}

/// The model of the float parses handed to the deserializer.
pub open spec fn floats_model(v: Seq<Option<Float>>) -> Seq<Option<FloatModel>> {
    Seq::new(
        v.len(),
        |i: int|
            match v[i] {
                Option::None => Option::None,
                Option::Some(f) => Option::Some(crate::kvp::float_model(f)),
            },
    )
}

// --- integer parsing ----------------------------------------------------

/// Whether every character of the sequence is a decimal digit.
pub open spec fn all_digits(s: Seq<char>) -> bool {
    forall|i: int| 0 <= i < s.len() ==> is_digit(s[i])
}

/// The value of a digit sequence read in base ten.
pub open spec fn digits_val(s: Seq<char>) -> int
    decreases s.len(),
{
    if s.len() == 0 {
        0
    } else {
        digits_val(s.drop_last()) * 10 + digit_val(s.last())
    }
}

/// What parsing a raw integer lexeme yields: the value of a nonempty run
/// of digits, when it fits a 64-bit signed integer; nothing otherwise.
pub open spec fn int_parse(s: Seq<char>) -> Option<int> {
    if s.len() > 0 && all_digits(s) && digits_val(s) <= i64::MAX {
        Option::Some(digits_val(s))
    } else {
        Option::None
    }
}

/// The value of a digit sequence is never negative.
pub proof fn lemma_digits_val_nonneg(s: Seq<char>)
    requires
        all_digits(s),
    ensures
        digits_val(s) >= 0,
    decreases s.len(),
{
    if s.len() > 0 {
        assert(all_digits(s.drop_last())) by {
            assert(forall|i: int| 0 <= i < s.len() - 1 ==> s.drop_last()[i] == s[i]);
        }
        lemma_digits_val_nonneg(s.drop_last());
        assert(is_digit(s.last()));
    }
}

/// Extending a digit sequence never shrinks its value.
pub proof fn lemma_digits_val_prefix(s: Seq<char>, i: int)
    requires
        all_digits(s),
        0 <= i <= s.len(),
    ensures
        digits_val(s.take(i)) <= digits_val(s),
    decreases s.len() - i,
{
    if i < s.len() {
        lemma_digits_val_prefix(s, i + 1);
        let a = s.take(i);
        let b = s.take(i + 1);
        assert(b.drop_last() =~= a);
        assert(b.last() == s[i]);
        assert(all_digits(a)) by {
            assert(forall|j: int| 0 <= j < a.len() ==> a[j] == s[j]);
        }
        lemma_digits_val_nonneg(a);
        assert(digits_val(b) == digits_val(a) * 10 + digit_val(s[i]));
        assert(digits_val(a) * 10 >= digits_val(a)) by {
            assert(digits_val(a) >= 0);
        }
    } else {
        assert(s.take(i) =~= s);
    }
}

/// Parses a nonempty run of decimal digits as a 64-bit signed integer.
#[verifier::loop_isolation(false)]
pub fn parse_i64(s: &str) -> (r: Option<i64>)
    ensures
        r == (match int_parse(s@) {
            Option::Some(n) => Option::Some(n as i64),
            Option::None => Option::<i64>::None,
        }),
{
    let n = s.unicode_len();
    if n == 0 {
        return Option::None;
    }
    let mut acc: u64 = 0;
    let mut i: usize = 0;
    while i < n
        invariant
            0 <= i <= n,
            all_digits(s@.take(i as int)),
            acc == digits_val(s@.take(i as int)),
            acc <= i64::MAX,
        decreases n - i,
    {
        let c = s.get_char(i);
        let u = c as u32;
        if !(48 <= u && u <= 57) {
            proof {
                assert(!is_digit(s@[i as int]));
                assert(!all_digits(s@));
            }
            return Option::None;
        }
        let d = (u - 48) as u64;
        proof {
            assert(s@.take(i + 1 as int).drop_last() =~= s@.take(i as int));
            assert(s@.take(i + 1 as int).last() == s@[i as int]);
            assert(all_digits(s@.take(i + 1 as int)));
            assert(digits_val(s@.take(i + 1 as int)) == acc * 10 + d);
        }
        if acc > 922_337_203_685_477_580 || (acc == 922_337_203_685_477_580 && d > 7) {
            proof {
                assert(digits_val(s@.take(i + 1 as int)) > i64::MAX);
                if all_digits(s@) {
                    lemma_digits_val_prefix(s@, i + 1);
                    assert(digits_val(s@) > i64::MAX);
                }
            }
            return Option::None;
        }
        acc = acc * 10 + d;
        i = i + 1;
    }
    proof {
        assert(s@.take(n as int) =~= s@);
        assert(int_parse(s@) == Option::Some(digits_val(s@)));
    }
    Option::Some(acc as i64)
}

// --- identifier folding ---------------------------------------------------

/// The lowercase image of an ASCII letter; other characters unchanged.
pub open spec fn ascii_lower(c: char) -> char {
    if 65 <= c as u32 && c as u32 <= 90 {
        (c as u32 + 32) as char
    } else {
        c
    }
}

/// The ASCII-lowercase image of a character sequence.
pub open spec fn lower_seq(s: Seq<char>) -> Seq<char> {
    Seq::new(s.len(), |i: int| ascii_lower(s[i]))
}

/// Lowercases the ASCII letters of a text.
#[verifier::loop_isolation(false)]
pub fn ascii_lower_str(s: &str) -> (r: String)
    ensures
        r@ == lower_seq(s@),
{
    let n = s.unicode_len();
    let mut out = String::new();
    let mut i: usize = 0;
    while i < n
        invariant
            0 <= i <= n,
            out@ =~= lower_seq(s@).take(i as int),
        decreases n - i,
    {
        let c = s.get_char(i);
        let u = c as u32;
        let lc: char = if 65 <= u && u <= 90 {
            match char_from_u32(u + 32) {
                Option::Some(x) => x,
                Option::None => c,
            }
        } else {
            c
        };
        proof {
            assert(lc == ascii_lower(s@[i as int]));
        }
        string_push(&mut out, lc);
        proof {
            assert(out@ =~= lower_seq(s@).take(i + 1 as int));
        }
        i = i + 1;
    }
    proof {
        assert(lower_seq(s@).take(n as int) =~= lower_seq(s@));
    }
    out
}

// --- the deserializer ----------------------------------------------------

/// The state of the tree builder: the stack of open frames, the sibling
/// sequence being filled, the pending key, the staged value, and whether
/// the implicit root has been opened.
pub struct DeserSt {
    /// Saved `(pending key, sibling sequence)` of the enclosing levels.
    pub frames: Seq<(Option<Seq<char>>, Seq<PairModel>)>,
    /// The sibling sequence of the current level.
    pub cur: Seq<PairModel>,
    /// The pending key.
    pub key: Option<Seq<char>>,
    /// The staged value.
    pub val: ValueModel,
    /// Whether a value is staged.
    pub staged: bool,
    /// Whether the next opening bracket is the implicit root.
    pub first_open: bool,
}

/// The state before the first token.
pub open spec fn init_deser_st() -> DeserSt {
    DeserSt {
        frames: Seq::empty(),
        cur: Seq::empty(),
        key: Option::None,
        val: ValueModel::Null,
        staged: false,
        first_open: true,
    }
}

/// What one token does to the builder state.
pub enum DeserStep {
    /// The token was consumed.
    Go(DeserSt),
    /// The token closed the root: the tree is complete and the remaining
    /// tokens are ignored.
    Done(Seq<PairModel>),
    /// The token is illegal here.
    Fail(DeserErrorModel),
}

/// Commits the staged value, if one is staged, as a new sibling.
pub open spec fn commit_staged(st: DeserSt) -> DeserSt {
    if st.staged {
        DeserSt {
            cur: st.cur.push(PairModel { key: st.key, value: st.val }),
            key: Option::None,
            val: ValueModel::Null,
            staged: false,
            ..st
        }
    } else {
        st
    }
}

/// The grammar, token by token.
///
/// A value token stages a value, erring when one is already staged; `=>`
/// turns a staged string into the pending key; `,` commits; `[` opens a
/// nested level (the first one is the implicit root); `]` commits, then
/// closes the current level into its parent, or finishes the tree at the
/// root.
pub open spec fn deser_step(
    st: DeserSt,
    pt: (Position, TokenModel),
    fv: Option<FloatModel>,
) -> DeserStep {
    let p = pt.0;
    match pt.1 {
        TokenModel::Int(x) => if st.staged {
            DeserStep::Fail(DeserErrorModel { position: p, kind: DeserErrorKindModel::MissingComma })
        } else {
            match int_parse(x) {
                Option::Some(n) => DeserStep::Go(
                    DeserSt { val: ValueModel::Int(n as i64), staged: true, ..st },
                ),
                Option::None => DeserStep::Fail(
                    DeserErrorModel { position: p, kind: DeserErrorKindModel::IntCast(x) },
                ),
            }
        },
        TokenModel::Float(x) => if st.staged {
            DeserStep::Fail(DeserErrorModel { position: p, kind: DeserErrorKindModel::MissingComma })
        } else {
            match fv {
                Option::Some(f) => DeserStep::Go(
                    DeserSt { val: ValueModel::Float(f), staged: true, ..st },
                ),
                Option::None => DeserStep::Fail(
                    DeserErrorModel { position: p, kind: DeserErrorKindModel::FloatCast(x) },
                ),
            }
        },
        TokenModel::SingleQuote(x) => if st.staged {
            DeserStep::Fail(DeserErrorModel { position: p, kind: DeserErrorKindModel::MissingComma })
        } else {
            DeserStep::Go(DeserSt { val: ValueModel::Str(x), staged: true, ..st })
        },
        TokenModel::DoubleQuote(x) => if st.staged {
            DeserStep::Fail(DeserErrorModel { position: p, kind: DeserErrorKindModel::MissingComma })
        } else {
            DeserStep::Go(DeserSt { val: ValueModel::Str(x), staged: true, ..st })
        },
        TokenModel::Assignment => match st.val {
            ValueModel::Str(k) => DeserStep::Go(
                DeserSt { key: Option::Some(k), val: ValueModel::Null, staged: false, ..st },
            ),
            _ => DeserStep::Fail(
                DeserErrorModel { position: p, kind: DeserErrorKindModel::InvalidKey },
            ),
        },
        TokenModel::Identifier(x) => {
            let ls = lower_seq(x);
            if ls == "true"@ {
                if st.staged {
                    DeserStep::Fail(
                        DeserErrorModel { position: p, kind: DeserErrorKindModel::MissingComma },
                    )
                } else {
                    DeserStep::Go(DeserSt { val: ValueModel::Bool(true), staged: true, ..st })
                }
            } else if ls == "false"@ {
                if st.staged {
                    DeserStep::Fail(
                        DeserErrorModel { position: p, kind: DeserErrorKindModel::MissingComma },
                    )
                } else {
                    DeserStep::Go(DeserSt { val: ValueModel::Bool(false), staged: true, ..st })
                }
            } else if ls == "null"@ {
                if st.staged {
                    DeserStep::Fail(
                        DeserErrorModel { position: p, kind: DeserErrorKindModel::MissingComma },
                    )
                } else {
                    DeserStep::Go(DeserSt { val: ValueModel::Null, staged: true, ..st })
                }
            } else if ls == "return"@ {
                DeserStep::Go(st)
            } else {
                DeserStep::Fail(
                    DeserErrorModel {
                        position: p,
                        kind: DeserErrorKindModel::UnexpectedIdentifier(x),
                    },
                )
            }
        },
        TokenModel::OpenSet => if st.staged {
            DeserStep::Fail(DeserErrorModel { position: p, kind: DeserErrorKindModel::MissingComma })
        } else if st.first_open {
            DeserStep::Go(DeserSt { first_open: false, ..st })
        } else {
            DeserStep::Go(
                DeserSt {
                    frames: st.frames.push((st.key, st.cur)),
                    cur: Seq::empty(),
                    key: Option::None,
                    val: ValueModel::Null,
                    ..st
                },
            )
        },
        TokenModel::Separator => DeserStep::Go(commit_staged(st)),
        TokenModel::CloseSet => {
            let st1 = commit_staged(st);
            if st1.frames.len() == 0 {
                DeserStep::Done(st1.cur)
            } else {
                let frame = st1.frames.last();
                DeserStep::Go(
                    DeserSt {
                        frames: st1.frames.drop_last(),
                        cur: frame.1.push(
                            PairModel { key: frame.0, value: ValueModel::Array(st1.cur) },
                        ),
                        ..st1
                    },
                )
            }
        },
    }
}

/// Folds the grammar over the token sequence.  The sibling sequence of
/// the current level is the tree when the tokens end before the root
/// closes; a closed root ends the fold early.
pub open spec fn deser_run(
    toks: Seq<(Position, TokenModel)>,
    fvs: Seq<Option<FloatModel>>,
    st: DeserSt,
) -> Result<Seq<PairModel>, DeserErrorModel>
    decreases toks.len(),
{
    if toks.len() == 0 {
        Result::Ok(st.cur)
    } else {
        let fv = if fvs.len() > 0 {
            fvs[0]
        } else {
            Option::None
        };
        match deser_step(st, toks[0], fv) {
            DeserStep::Go(st2) => deser_run(
                toks.drop_first(),
                if fvs.len() > 0 {
                    fvs.drop_first()
                } else {
                    fvs
                },
                st2,
            ),
            DeserStep::Done(ps) => Result::Ok(ps),
            DeserStep::Fail(e) => Result::Err(e),
        }
    }
}

/// The model of the frame stack.
pub open spec fn frames_model(
    d: Seq<(Option<String>, Vec<KeyValuePair>)>,
) -> Seq<(Option<Seq<char>>, Seq<PairModel>)> {
    Seq::new(d.len(), |i: int| (key_model(d[i].0), pairs_model(d[i].1@)))
}

/// Appending a pair maps through `pairs_model`.
pub proof fn lemma_pairs_model_push(v: Seq<KeyValuePair>, p: KeyValuePair)
    ensures
        pairs_model(v.push(p)) == pairs_model(v).push(pair_model(p)),
{
    crate::kvp::lemma_pairs_model(v.push(p));
    crate::kvp::lemma_pairs_model(v);
    assert(pairs_model(v.push(p)) =~= pairs_model(v).push(pair_model(p)));
}


/// The model of the exec builder state.
pub open spec fn st_model(
    data: Seq<(Option<String>, Vec<KeyValuePair>)>,
    current: Seq<KeyValuePair>,
    pair_key: Option<String>,
    pair_value: Value,
    pair_set: bool,
    first_open: bool,
) -> DeserSt {
    DeserSt {
        frames: frames_model(data),
        cur: pairs_model(current),
        key: key_model(pair_key),
        val: crate::kvp::value_model(pair_value),
        staged: pair_set,
        first_open: first_open,
    }
}

/// Builds the tree from a token sequence.
///
/// `floats` hands in, for every token, what parsing that token's raw text
/// as a 64-bit float yielded; the entry is read only at a `Float` token,
/// where `None` is the parse failure.  Keeping the float conversion
/// outside lets the builder itself stay free of native floating point.
#[verifier::loop_isolation(false)]
pub fn deser_tokens(
    tokens: &Vec<(Position, Token)>,
    floats: &Vec<Option<Float>>,
) -> (r: Result<Vec<KeyValuePair>, DeserError>)
    requires
        floats@.len() == tokens@.len(),
    ensures
        ({
            let res = deser_run(toks_model(tokens@), floats_model(floats@), init_deser_st());
            match r {
                Result::Ok(v) => res == Result::<Seq<PairModel>, DeserErrorModel>::Ok(
                    pairs_model(v@),
                ),
                Result::Err(e) => res == Result::<Seq<PairModel>, DeserErrorModel>::Err(
                    deser_error_model(e),
                ),
            }
        }),
{
    let ghost tm = toks_model(tokens@);
    let ghost fm = floats_model(floats@);
    let mut data: Vec<(Option<String>, Vec<KeyValuePair>)> = Vec::new();
    let mut current: Vec<KeyValuePair> = Vec::new();
    let mut pair_key: Option<String> = Option::None;
    let mut pair_value = Value::Null;
    let mut pair_set = false;
    let mut first_open = true;
    let mut i: usize = 0;
    proof {
        assert(frames_model(data@) =~= Seq::<(Option<Seq<char>>, Seq<PairModel>)>::empty());
        assert(st_model(data@, current@, pair_key, pair_value, pair_set, first_open)
            == init_deser_st());
        assert(tm.skip(0) =~= tm);
        assert(fm.skip(0) =~= fm);
    }
    while i < tokens.len()
        invariant
            i <= tokens@.len(),
            deser_run(tm, fm, init_deser_st()) == deser_run(
                tm.skip(i as int),
                fm.skip(i as int),
                st_model(data@, current@, pair_key, pair_value, pair_set, first_open),
            ),
        decreases tokens@.len() - i,
    {
        let ghost st = st_model(data@, current@, pair_key, pair_value, pair_set, first_open);
        proof {
            assert(tm.skip(i as int).len() > 0);
            assert(tm.skip(i as int)[0] == tm[i as int]);
            assert(fm.skip(i as int)[0] == fm[i as int]);
            assert(tm.skip(i as int).drop_first() =~= tm.skip(i + 1 as int));
            assert(fm.skip(i as int).drop_first() =~= fm.skip(i + 1 as int));
            assert(tm[i as int].0 == tokens@[i as int].0);
        }
        let p: Position = tokens[i].0;
        match &tokens[i].1 {
            Token::Int(x) => {
                if pair_set {
                    return Result::Err(DeserError::new(p, DeserErrorKind::MissingComma));
                }
                match parse_i64(x.as_str()) {
                    Option::Some(v) => {
                        pair_value = Value::Int(v);
                        pair_set = true;
                    },
                    Option::None => {
                        return Result::Err(DeserError::new(p, DeserErrorKind::IntCast(x.clone())));
                    },
                }
            },
            Token::Float(x) => {
                if pair_set {
                    return Result::Err(DeserError::new(p, DeserErrorKind::MissingComma));
                }
                match &floats[i] {
                    Option::Some(f) => {
                        pair_value = Value::Float(Float { bits: f.bits, text: f.text.clone() });
                        pair_set = true;
                    },
                    Option::None => {
                        return Result::Err(
                            DeserError::new(p, DeserErrorKind::FloatCast(x.clone())),
                        );
                    },
                }
            },
            Token::SingleQuote(x) => {
                if pair_set {
                    return Result::Err(DeserError::new(p, DeserErrorKind::MissingComma));
                }
                pair_value = Value::Str(x.clone());
                pair_set = true;
            },
            Token::DoubleQuote(x) => {
                if pair_set {
                    return Result::Err(DeserError::new(p, DeserErrorKind::MissingComma));
                }
                pair_value = Value::Str(x.clone());
                pair_set = true;
            },
            Token::Assignment => {
                let mut pv = Value::Null;
                swap(&mut pv, &mut pair_value);
                match pv {
                    Value::Str(v) => {
                        pair_key = Option::Some(v);
                        pair_set = false;
                    },
                    _ => {
                        return Result::Err(DeserError::new(p, DeserErrorKind::InvalidKey));
                    },
                }
            },
            Token::Identifier(x) => {
                let lower = ascii_lower_str(x.as_str());
                if lower == "true".to_owned() {
                    if pair_set {
                        return Result::Err(DeserError::new(p, DeserErrorKind::MissingComma));
                    }
                    pair_value = Value::Bool(true);
                    pair_set = true;
                } else if lower == "false".to_owned() {
                    if pair_set {
                        return Result::Err(DeserError::new(p, DeserErrorKind::MissingComma));
                    }
                    pair_value = Value::Bool(false);
                    pair_set = true;
                } else if lower == "null".to_owned() {
                    if pair_set {
                        return Result::Err(DeserError::new(p, DeserErrorKind::MissingComma));
                    }
                    pair_value = Value::Null;
                    pair_set = true;
                } else if lower == "return".to_owned() {
                } else {
                    return Result::Err(
                        DeserError::new(p, DeserErrorKind::UnexpectedIdentifier(x.clone())),
                    );
                }
            },
            Token::OpenSet => {
                if pair_set {
                    return Result::Err(DeserError::new(p, DeserErrorKind::MissingComma));
                }
                if !first_open {
                    let ghost frames0 = frames_model(data@);
                    let mut old_current: Vec<KeyValuePair> = Vec::new();
                    swap(&mut old_current, &mut current);
                    let mut old_pair_key: Option<String> = Option::None;
                    swap(&mut old_pair_key, &mut pair_key);
                    data.push((old_pair_key, old_current));
                    pair_value = Value::Null;
                    proof {
                        assert(frames_model(data@) =~= frames0.push((st.key, st.cur)));
                        assert(pairs_model(current@) =~= Seq::<PairModel>::empty());
                    }
                } else {
                    first_open = false;
                }
            },
            Token::Separator => {
                if pair_set {
                    let mut k: Option<String> = Option::None;
                    let mut v = Value::Null;
                    swap(&mut k, &mut pair_key);
                    swap(&mut v, &mut pair_value);
                    let ghost cur0 = current@;
                    current.push(KeyValuePair::new(k, v));
                    pair_set = false;
                    proof {
                        lemma_pairs_model_push(cur0, current@.last());
                        assert(current@.drop_last() =~= cur0);
                        assert(current@ =~= cur0.push(current@.last()));
                        assert(pairs_model(current@)
                            == pairs_model(cur0).push(pair_model(current@.last())));
                    }
                }
            },
            Token::CloseSet => {
                if pair_set {
                    let mut k: Option<String> = Option::None;
                    let mut v = Value::Null;
                    swap(&mut k, &mut pair_key);
                    swap(&mut v, &mut pair_value);
                    let ghost cur0 = current@;
                    current.push(KeyValuePair::new(k, v));
                    pair_set = false;
                    proof {
                        lemma_pairs_model_push(cur0, current@.last());
                        assert(current@ =~= cur0.push(current@.last()));
                    }
                }
                let ghost st1 = commit_staged(st);
                proof {
                    assert(st_model(data@, current@, pair_key, pair_value, pair_set, first_open)
                        == st1);
                }
                if data.len() == 0 {
                    proof {
                        assert(st1.frames.len() == 0);
                        assert(deser_run(tm.skip(i as int), fm.skip(i as int), st)
                            == Result::<Seq<PairModel>, DeserErrorModel>::Ok(pairs_model(current@)));
                    }
                    return Result::Ok(current);
                }
                let popped = data.pop();
                match popped {
                    Option::Some(kv) => {
                        let (k, mut oc) = kv;
                        swap(&mut oc, &mut current);
                        let ghost parent = current@;
                        let ghost child = oc@;
                        current.push(KeyValuePair::new(k, Value::Array(oc)));
                        proof {
                            lemma_pairs_model_push(parent, current@.last());
                            assert(current@ =~= parent.push(current@.last()));
                            assert(frames_model(data@)
                                =~= st1.frames.drop_last());
                        }
                    },
                    Option::None => {
                        proof {
                            assert(false);
                        }
                        return Result::Err(DeserError::new(p, DeserErrorKind::MissingComma));
                    },
                }
            },
        }
        i = i + 1;
    }
    proof {
        assert(tm.skip(tokens@.len() as int) =~= Seq::<(Position, TokenModel)>::empty());
        assert(deser_run(tm, fm, init_deser_st())
            == Result::<Seq<PairModel>, DeserErrorModel>::Ok(pairs_model(current@)));
    }
    Result::Ok(current)
}

} // verus!
