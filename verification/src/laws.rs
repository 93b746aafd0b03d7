use crate::deser::{
    commit_staged, deser_run, deser_step, lower_seq, DeserErrorKindModel, DeserErrorModel, DeserSt,
    DeserStep,
};
use crate::kvp::{
    ctl_escape, is_ctl, php_quote, quote_run, quote_step, FloatModel, PairModel, QuoteMode,
};
use crate::lex::{LexCfg, Position, State, TokenModel};
use crate::ser::{contains_dot, float_render};
use vstd::prelude::*;

verus! {

// --- number fidelity ------------------------------------------------------

/// Law: a float value always renders with a decimal point, even when its
/// decimal text is integral — a trailing `.0` is forced where the text
/// has none.
pub proof fn lemma_float_render_has_dot(t: Seq<char>)
    ensures
        contains_dot(float_render(t)),
{
    if !contains_dot(t) {
        assert(float_render(t)[t.len() as int] == '.');
    }
}

// --- trailing comma tolerance ---------------------------------------------

/// Law: a separator directly before a closing bracket changes nothing:
/// from any state, the fold treats `,]...` exactly like `]...`.
pub proof fn lemma_trailing_comma(
    st: DeserSt,
    psep: Position,
    fsep: Option<FloatModel>,
    toks: Seq<(Position, TokenModel)>,
    fvs: Seq<Option<FloatModel>>,
)
    requires
        toks.len() > 0,
        toks[0].1 is CloseSet,
    ensures
        deser_run(seq![(psep, TokenModel::Separator)] + toks, seq![fsep] + fvs, st) == deser_run(
            toks,
            fvs,
            st,
        ),
{
    let toks1 = seq![(psep, TokenModel::Separator)] + toks;
    let fvs1 = seq![fsep] + fvs;
    assert(toks1[0] == (psep, TokenModel::Separator));
    assert(toks1.drop_first() =~= toks);
    assert(fvs1.drop_first() =~= fvs);
    assert(deser_step(st, toks1[0], fvs1[0]) == DeserStep::Go(commit_staged(st)));
    assert(deser_run(toks1, fvs1, st) == deser_run(toks, fvs, commit_staged(st)));
    let st1 = commit_staged(st);
    assert(commit_staged(st1) == st1);
    let fv = if fvs.len() > 0 {
        fvs[0]
    } else {
        Option::<FloatModel>::None
    };
    assert(deser_step(st1, toks[0], fv) == deser_step(st, toks[0], fv));
}

// --- grammar strictness ---------------------------------------------------

/// Whether a token stages a value when it is consumed.
pub open spec fn stages_value(t: TokenModel) -> bool {
    match t {
        TokenModel::Int(_) | TokenModel::Float(_) | TokenModel::SingleQuote(_)
            | TokenModel::DoubleQuote(_) | TokenModel::OpenSet => true,
        TokenModel::Identifier(x) => lower_seq(x) == "true"@ || lower_seq(x) == "false"@
            || lower_seq(x) == "null"@,
        _ => false,
    }
}

/// Law: two consecutive value tokens with no separator between them fail
/// with `MissingComma` at the second token's position.
pub proof fn lemma_missing_comma(
    st: DeserSt,
    p: Position,
    t: TokenModel,
    fv: Option<FloatModel>,
)
    requires
        st.staged,
        stages_value(t),
    ensures
        deser_step(st, (p, t), fv) == DeserStep::Fail(
            DeserErrorModel { position: p, kind: DeserErrorKindModel::MissingComma },
        ),
{
}

/// Law: an assignment arrow after anything but a staged string fails with
/// `InvalidKey` at its position.
pub proof fn lemma_invalid_key(st: DeserSt, p: Position, fv: Option<FloatModel>)
    requires
        !(st.val is Str),
    ensures
        deser_step(st, (p, TokenModel::Assignment), fv) == DeserStep::Fail(
            DeserErrorModel { position: p, kind: DeserErrorKindModel::InvalidKey },
        ),
{
}

/// Law: a bare word other than `true`, `false`, `null` or `return` fails
/// with `UnexpectedIdentifier` carrying the word.
pub proof fn lemma_unexpected_identifier(
    st: DeserSt,
    p: Position,
    x: Seq<char>,
    fv: Option<FloatModel>,
)
    requires
        lower_seq(x) != "true"@,
        lower_seq(x) != "false"@,
        lower_seq(x) != "null"@,
        lower_seq(x) != "return"@,
    ensures
        deser_step(st, (p, TokenModel::Identifier(x)), fv) == DeserStep::Fail(
            DeserErrorModel { position: p, kind: DeserErrorKindModel::UnexpectedIdentifier(x) },
        ),
{
}

// --- control characters force the double-quoted form ----------------------

/// Whether the text holds a character with no single-quoted
/// representation.
pub open spec fn has_ctl(s: Seq<char>) -> bool {
    exists|i: int| 0 <= i < s.len() && is_ctl(s[i])
}

/// The quoting scan commits to the double-quoted form exactly when a
/// control character appears.
pub proof fn lemma_quote_mode(m: QuoteMode, s: Seq<char>)
    ensures
        quote_run(m, s).0 == QuoteMode::Decided <==> (m == QuoteMode::Decided || has_ctl(s)),
    decreases s.len(),
{
    if s.len() == 0 {
    } else {
        let stepped = quote_step(m, s[0]);
        lemma_quote_mode(stepped.0, s.drop_first());
        assert(stepped.0 == QuoteMode::Decided <==> (m == QuoteMode::Decided || is_ctl(s[0])));
        assert(has_ctl(s.drop_first()) ==> has_ctl(s)) by {
            if has_ctl(s.drop_first()) {
                let j = choose|j: int|
                    0 <= j < s.drop_first().len() && is_ctl(s.drop_first()[j]);
                assert(is_ctl(s[j + 1]));
            }
        }
        if has_ctl(s) && !is_ctl(s[0]) {
            let j = choose|j: int| 0 <= j < s.len() && is_ctl(s[j]);
            assert(is_ctl(s.drop_first()[j - 1]));
        }
    }
}

/// Law: a string holding a NUL, BEL, ESC, FF, CR, LF or TAB is always
/// serialized in double-quoted form; one without is single-quoted.
pub proof fn lemma_ctl_forces_double(s: Seq<char>)
    ensures
        has_ctl(s) ==> php_quote(s)[0] == '"',
        !has_ctl(s) ==> php_quote(s)[0] == '\'',
{
    lemma_quote_mode(QuoteMode::Undecided, s);
    let run = quote_run(QuoteMode::Undecided, s);
    match run.0 {
        QuoteMode::Undecided => {
            assert(php_quote(s)[0] == '\'');
        },
        QuoteMode::UndecidedEscape => {
            assert(php_quote(s)[0] == '\'');
        },
        QuoteMode::Decided => {
            assert(php_quote(s)[0] == '"');
        },
    }
}

} // verus!
