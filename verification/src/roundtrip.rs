use crate::deser::{all_digits, digits_val, int_parse};
use crate::kvp::{is_ctl, php_quote, quote_run, quote_step, FloatModel, PairModel, QuoteMode, ValueModel};
use crate::laws::{has_ctl, lemma_quote_mode};
use crate::lex::{
    is_digit, is_ident_char, is_ident_start, is_ws, lemma_lex_run_app, lex_run, lex_step, LexCfg,
    Position, RunModel, State, StepRes, TokenModel,
};
use crate::ser::{contains_dot, dec_digits, float_render, int_text, pairs_text, tab_text, value_text};
use vstd::prelude::*;

verus! {

/// Unfolds one character of a lex pass.
pub proof fn lemma_lex_run_cons(g: LexCfg, c: char, rest: Seq<char>)
    ensures
        lex_run(g, seq![c] + rest) == (match lex_step(g, c) {
            StepRes::Good(g2, t) => {
                let r = lex_run(g2, rest);
                RunModel { cfg: r.cfg, toks: t + r.toks, err: r.err }
            },
            StepRes::Bad(g2, e) => RunModel {
                cfg: g2,
                toks: Seq::empty(),
                err: Option::Some(e),
            },
        }),
{
    let s = seq![c] + rest;
    assert(s[0] == c);
    assert(s.drop_first() =~= rest);
}

/// Consumes one character that emits nothing: the rest of the pass
/// continues from the stepped configuration.
pub proof fn lemma_run_good(g: LexCfg, c: char, rest: Seq<char>)
    requires
        lex_step(g, c) is Good,
        lex_step(g, c)->Good_1 == Seq::<(Position, TokenModel)>::empty(),
    ensures
        lex_run(g, seq![c] + rest) == lex_run(lex_step(g, c)->Good_0, rest),
{
    lemma_lex_run_cons(g, c, rest);
    let r = lex_run(lex_step(g, c)->Good_0, rest);
    assert(Seq::<(Position, TokenModel)>::empty() + r.toks =~= r.toks);
}

/// The backslash still pending in the given quoting mode.
pub open spec fn pend(m: QuoteMode) -> Seq<char> {
    if m == QuoteMode::UndecidedEscape {
        seq!['\\']
    } else {
        Seq::empty()
    }
}

/// What the string-literal lemmas claim of the configuration after the
/// candidate text: the literal state holds, the decoded text has grown by
/// the original characters, and nothing was emitted.
pub open spec fn quiet_str_run(g: LexCfg, text: Seq<char>, st: State, buf: Seq<char>) -> bool {
    let r = lex_run(g, text);
    &&& r.err is None
    &&& r.toks == Seq::<(Position, TokenModel)>::empty()
    &&& r.cfg.state == st
    &&& r.cfg.buf == buf
    &&& r.cfg.tok == g.tok
}

/// Lexing the single-quoted candidate of `s` from inside a single-quoted
/// literal accumulates exactly `s`, up to the backslash still pending on
/// either side.
#[verifier::rlimit(100)]
pub proof fn lemma_sq(g: LexCfg, s: Seq<char>, m: QuoteMode)
    requires
        g.state == State::SingleQuote,
        m != QuoteMode::Decided,
        quote_run(m, s).0 != QuoteMode::Decided,
    ensures
        ({
            let run = quote_run(m, s);
            let r = lex_run(g, run.1);
            &&& r.err is None
            &&& r.toks == Seq::<(Position, TokenModel)>::empty()
            &&& r.cfg.state == State::SingleQuote
            &&& r.cfg.buf + pend(run.0) == g.buf + pend(m) + s
            &&& r.cfg.tok == g.tok
        }),
    decreases s.len(),
{
    let run = quote_run(m, s);
    if s.len() == 0 {
        assert(g.buf + pend(m) + Seq::<char>::empty() =~= g.buf + pend(m));
    } else {
        let c = s[0];
        let srest = s.drop_first();
        let stepped = quote_step(m, c);
        let m2 = stepped.0;
        let tail = quote_run(m2, srest).1;
        lemma_quote_mode(m2, srest);
        lemma_quote_mode(m, s);
        assert(!is_ctl(c)) by {
            if is_ctl(c) {
                assert(m2 == QuoteMode::Decided);
                assert(run.0 == QuoteMode::Decided);
            }
        }
        assert(run.1 == stepped.1 + tail);
        assert(run.0 == quote_run(m2, srest).0);
        if m == QuoteMode::Undecided {
            if c == '\'' {
                assert(run.1 =~= seq!['\\'] + (seq!['\''] + tail));
                lemma_run_good(g, '\\', seq!['\''] + tail);
                let ga = lex_step(g, '\\')->Good_0;
                lemma_run_good(ga, '\'', tail);
                let gb = lex_step(ga, '\'')->Good_0;
                lemma_sq(gb, srest, m2);
                assert(lex_run(gb, tail).cfg.buf + pend(run.0) =~= g.buf + pend(m) + s);
            } else if c == '\\' {
                assert(run.1 =~= tail);
                lemma_sq(g, srest, m2);
                assert(lex_run(g, tail).cfg.buf + pend(run.0) =~= g.buf + pend(m) + s);
            } else {
                assert(run.1 =~= seq![c] + tail);
                lemma_run_good(g, c, tail);
                let ga = lex_step(g, c)->Good_0;
                lemma_sq(ga, srest, m2);
                assert(lex_run(ga, tail).cfg.buf + pend(run.0) =~= g.buf + pend(m) + s);
            }
        } else {
            if c == '\'' {
                assert(run.1 =~= seq!['\\'] + (seq!['\\'] + (seq!['\\'] + (seq!['\''] + tail))));
                lemma_run_good(g, '\\', seq!['\\'] + (seq!['\\'] + (seq!['\''] + tail)));
                let ga = lex_step(g, '\\')->Good_0;
                lemma_run_good(ga, '\\', seq!['\\'] + (seq!['\''] + tail));
                let gb = lex_step(ga, '\\')->Good_0;
                lemma_run_good(gb, '\\', seq!['\''] + tail);
                let gc = lex_step(gb, '\\')->Good_0;
                lemma_run_good(gc, '\'', tail);
                let gd = lex_step(gc, '\'')->Good_0;
                lemma_sq(gd, srest, m2);
                assert(lex_run(gd, tail).cfg.buf + pend(run.0) =~= g.buf + pend(m) + s);
            } else if c == '\\' {
                assert(run.1 =~= seq!['\\'] + (seq!['\\'] + (seq!['\\'] + (seq!['\\'] + tail))));
                lemma_run_good(g, '\\', seq!['\\'] + (seq!['\\'] + (seq!['\\'] + tail)));
                let ga = lex_step(g, '\\')->Good_0;
                lemma_run_good(ga, '\\', seq!['\\'] + (seq!['\\'] + tail));
                let gb = lex_step(ga, '\\')->Good_0;
                lemma_run_good(gb, '\\', seq!['\\'] + tail);
                let gc = lex_step(gb, '\\')->Good_0;
                lemma_run_good(gc, '\\', tail);
                let gd = lex_step(gc, '\\')->Good_0;
                lemma_sq(gd, srest, m2);
                assert(lex_run(gd, tail).cfg.buf + pend(run.0) =~= g.buf + pend(m) + s);
            } else if c == '"' || c == '$' {
                assert(run.1 =~= seq!['\\'] + (seq![c] + tail));
                lemma_run_good(g, '\\', seq![c] + tail);
                let ga = lex_step(g, '\\')->Good_0;
                lemma_run_good(ga, c, tail);
                let gb = lex_step(ga, c)->Good_0;
                lemma_sq(gb, srest, m2);
                assert(lex_run(gb, tail).cfg.buf + pend(run.0) =~= g.buf + pend(m) + s);
            } else {
                assert(run.1 =~= seq!['\\'] + (seq![c] + tail));
                lemma_run_good(g, '\\', seq![c] + tail);
                let ga = lex_step(g, '\\')->Good_0;
                lemma_run_good(ga, c, tail);
                let gb = lex_step(ga, c)->Good_0;
                lemma_sq(gb, srest, m2);
                assert(lex_run(gb, tail).cfg.buf + pend(run.0) =~= g.buf + pend(m) + s);
            }
        }
    }
}


/// Consuming a two-character escape inside a double-quoted literal: the
/// decoded character joins the text.
pub proof fn lemma_dq_esc(g: LexCfg, e: char, d: char, rest: Seq<char>)
    requires
        g.state == State::DoubleQuote,
        (e == 'a' && d == '\u{0007}') || (e == 'e' && d == '\u{001b}') || (e == 'f' && d
            == '\u{000c}') || (e == 'r' && d == '\r') || (e == 'n' && d == '\n') || (e == 't' && d
            == '\t') || (e == '\\' && d == '\\') || (e == '"' && d == '"') || (e == '$' && d
            == '$'),
    ensures
        ({
            let g2 = LexCfg {
                state: State::DoubleQuote,
                pos: crate::lex::spec_advance(crate::lex::spec_advance(g.pos, false), false),
                tok: g.tok,
                buf: g.buf.push(d),
                cp: g.cp,
            };
            lex_run(g, seq!['\\'] + (seq![e] + rest)) == lex_run(g2, rest)
        }),
{
    lemma_run_good(g, '\\', seq![e] + rest);
    let ga = lex_step(g, '\\')->Good_0;
    lemma_run_good(ga, e, rest);
    let gb = lex_step(ga, e)->Good_0;
    assert(gb == (LexCfg {
        state: State::DoubleQuote,
        pos: crate::lex::spec_advance(crate::lex::spec_advance(g.pos, false), false),
        tok: g.tok,
        buf: g.buf.push(d),
        cp: g.cp,
    }));
}

/// Consuming the four-character NUL escape inside a double-quoted
/// literal.
pub proof fn lemma_dq_nul(g: LexCfg, rest: Seq<char>)
    requires
        g.state == State::DoubleQuote,
    ensures
        ({
            let p4 = crate::lex::spec_advance(
                crate::lex::spec_advance(
                    crate::lex::spec_advance(crate::lex::spec_advance(g.pos, false), false),
                    false,
                ),
                false,
            );
            let g2 = LexCfg {
                state: State::DoubleQuote,
                pos: p4,
                tok: g.tok,
                buf: g.buf.push('\u{0000}'),
                cp: 0,
            };
            lex_run(g, seq!['\\'] + (seq!['0'] + (seq!['0'] + (seq!['0'] + rest)))) == lex_run(
                g2,
                rest,
            )
        }),
{
    lemma_run_good(g, '\\', seq!['0'] + (seq!['0'] + (seq!['0'] + rest)));
    let ga = lex_step(g, '\\')->Good_0;
    lemma_run_good(ga, '0', seq!['0'] + (seq!['0'] + rest));
    let gb = lex_step(ga, '0')->Good_0;
    assert(gb.cp == 0);
    lemma_run_good(gb, '0', seq!['0'] + rest);
    let gc = lex_step(gb, '0')->Good_0;
    assert(gc.cp == 0);
    vstd::utf8::char_u32_cast('\u{0000}', 0);
    lemma_run_good(gc, '0', rest);
    let gd = lex_step(gc, '0')->Good_0;
    assert(gd.buf == g.buf.push('\u{0000}'));
    assert(gd.state == State::DoubleQuote && gd.tok == g.tok && gd.cp == 0);
}

/// Lexing the double-quoted candidate of `s` from inside a double-quoted
/// literal accumulates exactly `s`, whatever the scan mode.
#[verifier::rlimit(100)]
pub proof fn lemma_dq(g: LexCfg, s: Seq<char>, m: QuoteMode)
    requires
        g.state == State::DoubleQuote,
    ensures
        ({
            let run = quote_run(m, s);
            let r = lex_run(g, run.2);
            &&& r.err is None
            &&& r.toks == Seq::<(Position, TokenModel)>::empty()
            &&& r.cfg.state == State::DoubleQuote
            &&& r.cfg.buf == g.buf + s
            &&& r.cfg.tok == g.tok
        }),
    decreases s.len(),
{
    let run = quote_run(m, s);
    if s.len() == 0 {
        assert(g.buf + Seq::<char>::empty() =~= g.buf);
    } else {
        let c = s[0];
        let srest = s.drop_first();
        let stepped = quote_step(m, c);
        let m2 = stepped.0;
        let tail = quote_run(m2, srest).2;
        assert(run.2 == stepped.2 + tail);
        if is_ctl(c) {
            if c == '\u{0000}' {
                assert(run.2 =~= seq!['\\'] + (seq!['0'] + (seq!['0'] + (seq!['0'] + tail))));
                lemma_dq_nul(g, tail);
                let p4 = crate::lex::spec_advance(
                    crate::lex::spec_advance(
                        crate::lex::spec_advance(crate::lex::spec_advance(g.pos, false), false),
                        false,
                    ),
                    false,
                );
                let g2 = LexCfg {
                    state: State::DoubleQuote,
                    pos: p4,
                    tok: g.tok,
                    buf: g.buf.push('\u{0000}'),
                    cp: 0,
                };
                lemma_dq(g2, srest, m2);
                assert(lex_run(g2, tail).cfg.buf =~= g.buf + s);
            } else {
                let e = if c == '\u{0007}' {
                    'a'
                } else if c == '\u{001b}' {
                    'e'
                } else if c == '\u{000c}' {
                    'f'
                } else if c == '\r' {
                    'r'
                } else if c == '\n' {
                    'n'
                } else {
                    't'
                };
                assert(run.2 =~= seq!['\\'] + (seq![e] + tail));
                lemma_dq_esc(g, e, c, tail);
                let g2 = LexCfg {
                    state: State::DoubleQuote,
                    pos: crate::lex::spec_advance(crate::lex::spec_advance(g.pos, false), false),
                    tok: g.tok,
                    buf: g.buf.push(c),
                    cp: g.cp,
                };
                lemma_dq(g2, srest, m2);
                assert(lex_run(g2, tail).cfg.buf =~= g.buf + s);
            }
        } else if c == '\\' || c == '"' || c == '$' {
            assert(run.2 =~= seq!['\\'] + (seq![c] + tail));
            lemma_dq_esc(g, c, c, tail);
            let g2 = LexCfg {
                state: State::DoubleQuote,
                pos: crate::lex::spec_advance(crate::lex::spec_advance(g.pos, false), false),
                tok: g.tok,
                buf: g.buf.push(c),
                cp: g.cp,
            };
            lemma_dq(g2, srest, m2);
            assert(lex_run(g2, tail).cfg.buf =~= g.buf + s);
        } else {
            assert(run.2 =~= seq![c] + tail);
            lemma_run_good(g, c, tail);
            let ga = lex_step(g, c)->Good_0;
            assert(ga.buf == g.buf.push(c));
            lemma_dq(ga, srest, m2);
            assert(lex_run(ga, tail).cfg.buf =~= g.buf + s);
        }
    }
}

/// Law: string quoting is sound.  Feeding the chosen literal for `s` back
/// through the lexer, from between lexemes, consumes it without error and
/// yields exactly one string token whose decoded text is `s` — the
/// double-quoted token when a control character forced that form, the
/// single-quoted token otherwise.
pub proof fn lemma_quote_sound(g: LexCfg, s: Seq<char>)
    requires
        g.state == State::Initial,
    ensures
        ({
            let r = lex_run(g, php_quote(s));
            &&& r.err is None
            &&& r.cfg.state == State::Initial
            &&& r.toks.len() == 1
            &&& r.toks[0].1 == (if has_ctl(s) {
                TokenModel::DoubleQuote(s)
            } else {
                TokenModel::SingleQuote(s)
            })
        }),
{
    lemma_quote_mode(QuoteMode::Undecided, s);
    let run = quote_run(QuoteMode::Undecided, s);
    if run.0 == QuoteMode::Decided {
        assert(php_quote(s) =~= seq!['"'] + (run.2 + seq!['"']));
        lemma_run_good(g, '"', run.2 + seq!['"']);
        let ga = lex_step(g, '"')->Good_0;
        assert(ga.state == State::DoubleQuote && ga.buf == Seq::<char>::empty());
        crate::lex::lemma_lex_run_app(ga, run.2, seq!['"']);
        lemma_dq(ga, s, QuoteMode::Undecided);
        let gb = lex_run(ga, run.2).cfg;
        assert(gb.buf =~= s);
        lemma_lex_run_cons(gb, '"', Seq::empty());
        let r2 = lex_run(gb, seq!['"']);
        assert(r2.err is None && r2.cfg.state == State::Initial);
        assert(r2.toks =~= seq![(gb.tok, TokenModel::DoubleQuote(s))] + Seq::<(Position, TokenModel)>::empty());
        let r = lex_run(g, php_quote(s));
        assert(r.toks =~= Seq::<(Position, TokenModel)>::empty() + r2.toks);
        assert(r.toks.len() == 1);
        assert(r.toks[0].1 == TokenModel::DoubleQuote(s));
    } else if run.0 == QuoteMode::Undecided {
        assert(php_quote(s) =~= seq!['\''] + (run.1 + seq!['\'']));
        lemma_run_good(g, '\'', run.1 + seq!['\'']);
        let ga = lex_step(g, '\'')->Good_0;
        assert(ga.state == State::SingleQuote && ga.buf == Seq::<char>::empty());
        crate::lex::lemma_lex_run_app(ga, run.1, seq!['\'']);
        lemma_sq(ga, s, QuoteMode::Undecided);
        let gb = lex_run(ga, run.1).cfg;
        assert(gb.buf =~= s) by {
            assert(gb.buf + pend(run.0) == ga.buf + pend(QuoteMode::Undecided) + s);
            assert(gb.buf + Seq::<char>::empty() =~= gb.buf);
            assert(ga.buf + Seq::<char>::empty() + s =~= s);
        }
        lemma_lex_run_cons(gb, '\'', Seq::empty());
        let r2 = lex_run(gb, seq!['\'']);
        assert(r2.err is None && r2.cfg.state == State::Initial);
        assert(r2.toks =~= seq![(gb.tok, TokenModel::SingleQuote(s))] + Seq::<(Position, TokenModel)>::empty());
        let r = lex_run(g, php_quote(s));
        assert(r.toks =~= Seq::<(Position, TokenModel)>::empty() + r2.toks);
        assert(r.toks.len() == 1);
        assert(r.toks[0].1 == TokenModel::SingleQuote(s));
    } else {
        assert(php_quote(s) =~= seq!['\''] + (run.1 + seq!['\\', '\\', '\'']));
        lemma_run_good(g, '\'', run.1 + seq!['\\', '\\', '\'']);
        let ga = lex_step(g, '\'')->Good_0;
        assert(ga.state == State::SingleQuote && ga.buf == Seq::<char>::empty());
        crate::lex::lemma_lex_run_app(ga, run.1, seq!['\\', '\\', '\'']);
        lemma_sq(ga, s, QuoteMode::Undecided);
        let gb = lex_run(ga, run.1).cfg;
        assert(gb.buf + seq!['\\'] =~= s) by {
            assert(gb.buf + pend(run.0) == ga.buf + pend(QuoteMode::Undecided) + s);
            assert(ga.buf + Seq::<char>::empty() + s =~= s);
        }
        assert(seq!['\\', '\\', '\''] =~= seq!['\\'] + (seq!['\\'] + (seq!['\''] + Seq::<char>::empty())));
        lemma_run_good(gb, '\\', seq!['\\'] + (seq!['\''] + Seq::<char>::empty()));
        let gc = lex_step(gb, '\\')->Good_0;
        lemma_run_good(gc, '\\', seq!['\''] + Seq::<char>::empty());
        let gd = lex_step(gc, '\\')->Good_0;
        assert(gd.buf =~= s) by {
            assert(gd.buf == gb.buf.push('\\'));
            assert(gb.buf.push('\\') =~= gb.buf + seq!['\\']);
        }
        lemma_lex_run_cons(gd, '\'', Seq::empty());
        let r2 = lex_run(gd, seq!['\''] + Seq::<char>::empty());
        assert(seq!['\''] + Seq::<char>::empty() =~= seq!['\'']);
        assert(r2.err is None && r2.cfg.state == State::Initial);
        assert(r2.toks =~= seq![(gd.tok, TokenModel::SingleQuote(s))] + Seq::<(Position, TokenModel)>::empty());
        let r = lex_run(g, php_quote(s));
        assert(r.toks =~= Seq::<(Position, TokenModel)>::empty() + r2.toks);
        assert(r.toks.len() == 1);
        assert(r.toks[0].1 == TokenModel::SingleQuote(s));
    }
}


// --- the token image of a tree ---------------------------------------------

/// The payloads of a positioned token sequence.
pub open spec fn payloads(ts: Seq<(Position, TokenModel)>) -> Seq<TokenModel> {
    Seq::new(ts.len(), |i: int| ts[i].1)
}

/// The string token the serializer's literal lexes to.
pub open spec fn str_tok(s: Seq<char>) -> TokenModel {
    if has_ctl(s) {
        TokenModel::DoubleQuote(s)
    } else {
        TokenModel::SingleQuote(s)
    }
}

/// The tokens a serialized value lexes to.
pub open spec fn toks_of_value(v: ValueModel) -> Seq<TokenModel>
    decreases v,
{
    match v {
        ValueModel::Null => seq![TokenModel::Identifier(seq!['n', 'u', 'l', 'l'])],
        ValueModel::Bool(b) => if b {
            seq![TokenModel::Identifier(seq!['t', 'r', 'u', 'e'])]
        } else {
            seq![TokenModel::Identifier(seq!['f', 'a', 'l', 's', 'e'])]
        },
        ValueModel::Int(n) => seq![TokenModel::Int(int_text(n as int))],
        ValueModel::Float(f) => seq![TokenModel::Float(float_render(f.text))],
        ValueModel::Str(s) => seq![str_tok(s)],
        ValueModel::Array(ps) => seq![TokenModel::OpenSet] + toks_of_pairs(ps)
            + seq![TokenModel::CloseSet],
    }
}

/// The tokens a serialized pair lexes to: the key, the value, and the
/// trailing separator.
pub open spec fn toks_of_pair(p: PairModel) -> Seq<TokenModel>
    decreases p,
{
    (match p.key {
        Option::None => Seq::empty(),
        Option::Some(k) => seq![str_tok(k), TokenModel::Assignment],
    }) + toks_of_value(p.value) + seq![TokenModel::Separator]
}

/// The tokens a serialized sibling sequence lexes to.
pub open spec fn toks_of_pairs(ps: Seq<PairModel>) -> Seq<TokenModel>
    decreases ps,
{
    if ps.len() == 0 {
        Seq::empty()
    } else {
        toks_of_pair(ps[0]) + toks_of_pairs(ps.drop_first())
    }
}

// --- well-formed trees ------------------------------------------------------

/// A float's decimal text: nonempty, a digit first, digits and dots only.
pub open spec fn float_text_ok(t: Seq<char>) -> bool {
    t.len() > 0 && is_digit(t[0]) && (forall|i: int| 0 <= i < t.len() ==> is_digit(t[i]) || t[i]
        == '.')
}

/// A tree value the serializer's output re-lexes from: integers are
/// nonnegative (the dialect has no negative literals) and float texts are
/// plain decimal.
pub open spec fn wf_value(v: ValueModel) -> bool
    decreases v,
{
    match v {
        ValueModel::Int(n) => n >= 0,
        ValueModel::Float(f) => float_text_ok(f.text),
        ValueModel::Array(ps) => wf_pairs(ps),
        _ => true,
    }
}

/// Well-formedness of every value of a sibling sequence.
pub open spec fn wf_pairs(ps: Seq<PairModel>) -> bool
    decreases ps,
{
    if ps.len() == 0 {
        true
    } else {
        wf_value(ps[0].value) && wf_pairs(ps.drop_first())
    }
}

// --- lexing the serializer's fragments --------------------------------------

/// Whitespace between lexemes is skipped and changes nothing else.
pub proof fn lemma_lex_ws(g: LexCfg, s: Seq<char>)
    requires
        g.state == State::Initial,
        forall|i: int| 0 <= i < s.len() ==> is_ws(s[i]),
    ensures
        ({
            let r = lex_run(g, s);
            &&& r.err is None
            &&& r.toks == Seq::<(Position, TokenModel)>::empty()
            &&& r.cfg.state == State::Initial
            &&& r.cfg.buf == g.buf
            &&& r.cfg.tok == g.tok
            &&& r.cfg.cp == g.cp
        }),
    decreases s.len(),
{
    if s.len() > 0 {
        let c = s[0];
        assert(is_ws(c));
        assert(s =~= seq![c] + s.drop_first());
        lemma_run_good(g, c, s.drop_first());
        let ga = lex_step(g, c)->Good_0;
        lemma_lex_ws(ga, s.drop_first());
    }
}

/// Digits and dots extend a pending number; a dot moves the scan into the
/// decimal part and it stays there.
pub proof fn lemma_lex_number_tail(g: LexCfg, t: Seq<char>)
    requires
        g.state == State::Integer || g.state == State::Decimal,
        forall|i: int| 0 <= i < t.len() ==> is_digit(t[i]) || t[i] == '.',
    ensures
        ({
            let r = lex_run(g, t);
            &&& r.err is None
            &&& r.toks == Seq::<(Position, TokenModel)>::empty()
            &&& r.cfg.state == (if g.state == State::Decimal || contains_dot(t) {
                State::Decimal
            } else {
                State::Integer
            })
            &&& r.cfg.buf == g.buf + t
            &&& r.cfg.tok == g.tok
            &&& r.cfg.cp == g.cp
        }),
    decreases t.len(),
{
    if t.len() == 0 {
        assert(g.buf + t =~= g.buf);
        assert(!contains_dot(t));
    } else {
        let c = t[0];
        assert(is_digit(c) || c == '.');
        assert(t =~= seq![c] + t.drop_first());
        lemma_run_good(g, c, t.drop_first());
        let ga = lex_step(g, c)->Good_0;
        lemma_lex_number_tail(ga, t.drop_first());
        let r = lex_run(ga, t.drop_first());
        assert(r.cfg.buf =~= g.buf + t) by {
            assert(r.cfg.buf == ga.buf + t.drop_first());
            assert(ga.buf == g.buf.push(c));
            assert(g.buf.push(c) + t.drop_first() =~= g.buf + t);
        }
        assert(contains_dot(t) <==> (c == '.' || contains_dot(t.drop_first()))) by {
            if contains_dot(t) {
                let j = choose|j: int| 0 <= j < t.len() && t[j] == '.';
                if j > 0 {
                    assert(t.drop_first()[j - 1] == '.');
                }
            }
            if contains_dot(t.drop_first()) {
                let j = choose|j: int| 0 <= j < t.drop_first().len() && t.drop_first()[j] == '.';
                assert(t[j + 1] == '.');
            }
        }
    }
}

/// Identifier characters extend a pending identifier.
pub proof fn lemma_lex_word_tail(g: LexCfg, t: Seq<char>)
    requires
        g.state == State::Identifier,
        forall|i: int| 0 <= i < t.len() ==> is_ident_char(t[i]),
    ensures
        ({
            let r = lex_run(g, t);
            &&& r.err is None
            &&& r.toks == Seq::<(Position, TokenModel)>::empty()
            &&& r.cfg.state == State::Identifier
            &&& r.cfg.buf == g.buf + t
            &&& r.cfg.tok == g.tok
            &&& r.cfg.cp == g.cp
        }),
    decreases t.len(),
{
    if t.len() == 0 {
        assert(g.buf + t =~= g.buf);
    } else {
        let c = t[0];
        assert(is_ident_char(c));
        assert(t =~= seq![c] + t.drop_first());
        assert(!is_ident_char('\'') && !is_ident_char('"')) by {
            assert('\'' as u32 == 39 && '"' as u32 == 34);
        }
        lemma_run_good(g, c, t.drop_first());
        let ga = lex_step(g, c)->Good_0;
        lemma_lex_word_tail(ga, t.drop_first());
        let r = lex_run(ga, t.drop_first());
        assert(r.cfg.buf =~= g.buf + t) by {
            assert(r.cfg.buf == ga.buf + t.drop_first());
            assert(ga.buf == g.buf.push(c));
            assert(g.buf.push(c) + t.drop_first() =~= g.buf + t);
        }
    }
}

/// The decimal rendering of a nonnegative number is a nonempty digit run.
pub proof fn lemma_dec_digits_ok(n: nat)
    ensures
        dec_digits(n).len() > 0,
        forall|i: int| 0 <= i < dec_digits(n).len() ==> is_digit(#[trigger] dec_digits(n)[i]),
    decreases n,
{
    if n < 10 {
        assert(is_digit(dec_digits(n)[0])) by {
            assert(dec_digits(n)[0] == crate::ser::digit_char(n as int));
        }
    } else {
        lemma_dec_digits_ok(n / 10);
        assert(forall|i: int|
            0 <= i < dec_digits(n).len() ==> is_digit(#[trigger] dec_digits(n)[i])) by {
            let d = dec_digits(n / 10);
            assert(forall|i: int| 0 <= i < d.len() ==> is_digit(#[trigger] d[i]));
            assert(dec_digits(n) == d + seq![crate::ser::digit_char((n % 10) as int)]);
            assert(is_digit(crate::ser::digit_char((n % 10) as int)));
            assert(forall|i: int| 0 <= i < dec_digits(n).len() ==> (#[trigger] dec_digits(n)[i])
                == (if i < d.len() { d[i] } else { crate::ser::digit_char((n % 10) as int) }));
        }
    }
}


/// A separator and newline between lexemes: one `Separator` token.
pub proof fn lemma_lex_sep_nl(g: LexCfg)
    requires
        g.state == State::Initial,
    ensures
        ({
            let r = lex_run(g, seq![',', '\n']);
            &&& r.err is None
            &&& r.cfg.state == State::Initial
            &&& payloads(r.toks) == seq![TokenModel::Separator]
        }),
{
    assert(seq![',', '\n'] =~= seq![','] + seq!['\n']);
    lemma_lex_run_cons(g, ',', seq!['\n']);
    match lex_step(g, ',') {
        StepRes::Good(ga, t) => {
            lemma_lex_run_cons(ga, '\n', Seq::empty());
            match lex_step(ga, '\n') {
                StepRes::Good(gb, t2) => {
                    let r = lex_run(g, seq![','] + seq!['\n']);
                    assert(r.toks =~= t);
                    assert(payloads(r.toks) =~= seq![TokenModel::Separator]);
                },
                StepRes::Bad(gb, e) => {
                    assert(false);
                },
            }
        },
        StepRes::Bad(ga, e) => {
            assert(false);
        },
    }
}

/// A word value and its trailing separator: the identifier token closed
/// by the comma, then the separator.
pub proof fn lemma_lex_word_value(g: LexCfg, w: Seq<char>)
    requires
        g.state == State::Initial,
        w.len() > 0,
        is_ident_start(w[0]),
        forall|i: int| 0 <= i < w.len() ==> is_ident_char(w[i]),
    ensures
        ({
            let r = lex_run(g, w + seq![',', '\n']);
            &&& r.err is None
            &&& r.cfg.state == State::Initial
            &&& payloads(r.toks) == seq![TokenModel::Identifier(w), TokenModel::Separator]
        }),
{
    assert(w + seq![',', '\n'] =~= seq![w[0]] + (w.drop_first() + seq![',', '\n']));
    lemma_run_good(g, w[0], w.drop_first() + seq![',', '\n']);
    let ga = lex_step(g, w[0])->Good_0;
    lemma_lex_run_app(ga, w.drop_first(), seq![',', '\n']);
    lemma_lex_word_tail(ga, w.drop_first());
    let gb = lex_run(ga, w.drop_first()).cfg;
    assert(gb.buf =~= w) by {
        assert(gb.buf == ga.buf + w.drop_first());
        assert(ga.buf == seq![w[0]]);
        assert(seq![w[0]] + w.drop_first() =~= w);
    }
    assert(seq![',', '\n'] =~= seq![','] + seq!['\n']);
    lemma_lex_run_cons(gb, ',', seq!['\n']);
    match lex_step(gb, ',') {
        StepRes::Good(gc, t) => {
            assert(payloads(t) =~= seq![TokenModel::Identifier(w), TokenModel::Separator]);
            lemma_lex_run_cons(gc, '\n', Seq::empty());
            let r = lex_run(g, w + seq![',', '\n']);
            assert(r.toks =~= t);
            assert(payloads(r.toks) =~= seq![TokenModel::Identifier(w), TokenModel::Separator]);
        },
        StepRes::Bad(gc, e) => {
            assert(false);
        },
    }
}

/// A number value and its trailing separator: the number token closed by
/// the comma, then the separator.
pub proof fn lemma_lex_number_value(g: LexCfg, t: Seq<char>)
    requires
        g.state == State::Initial,
        t.len() > 0,
        is_digit(t[0]),
        forall|i: int| 0 <= i < t.len() ==> is_digit(t[i]) || t[i] == '.',
    ensures
        ({
            let r = lex_run(g, t + seq![',', '\n']);
            &&& r.err is None
            &&& r.cfg.state == State::Initial
            &&& payloads(r.toks) == seq![
                if contains_dot(t) {
                    TokenModel::Float(t)
                } else {
                    TokenModel::Int(t)
                },
                TokenModel::Separator,
            ]
        }),
{
    assert(t + seq![',', '\n'] =~= seq![t[0]] + (t.drop_first() + seq![',', '\n']));
    lemma_run_good(g, t[0], t.drop_first() + seq![',', '\n']);
    let ga = lex_step(g, t[0])->Good_0;
    lemma_lex_run_app(ga, t.drop_first(), seq![',', '\n']);
    lemma_lex_number_tail(ga, t.drop_first());
    let gb = lex_run(ga, t.drop_first()).cfg;
    assert(gb.buf =~= t) by {
        assert(gb.buf == ga.buf + t.drop_first());
        assert(ga.buf == seq![t[0]]);
        assert(seq![t[0]] + t.drop_first() =~= t);
    }
    assert(contains_dot(t) <==> contains_dot(t.drop_first())) by {
        assert(!is_digit('.')) by {
            assert('.' as u32 == 46);
        }
        if contains_dot(t) {
            let j = choose|j: int| 0 <= j < t.len() && t[j] == '.';
            assert(j > 0);
            assert(t.drop_first()[j - 1] == '.');
        }
        if contains_dot(t.drop_first()) {
            let j = choose|j: int| 0 <= j < t.drop_first().len() && t.drop_first()[j] == '.';
            assert(t[j + 1] == '.');
        }
    }
    assert(seq![',', '\n'] =~= seq![','] + seq!['\n']);
    lemma_lex_run_cons(gb, ',', seq!['\n']);
    match lex_step(gb, ',') {
        StepRes::Good(gc, toks1) => {
            lemma_lex_run_cons(gc, '\n', Seq::empty());
            let r = lex_run(g, t + seq![',', '\n']);
            assert(r.toks =~= toks1);
            assert(payloads(r.toks) =~= seq![
                if contains_dot(t) {
                    TokenModel::Float(t)
                } else {
                    TokenModel::Int(t)
                },
                TokenModel::Separator,
            ]);
        },
        StepRes::Bad(gc, e) => {
            assert(false);
        },
    }
}

/// The assignment arrow between the key and the value: spaces around the
/// two-character arrow, one `Assignment` token.
pub proof fn lemma_lex_arrow(g: LexCfg)
    requires
        g.state == State::Initial,
    ensures
        ({
            let r = lex_run(g, seq![' ', '=', '>', ' ']);
            &&& r.err is None
            &&& r.cfg.state == State::Initial
            &&& payloads(r.toks) == seq![TokenModel::Assignment]
        }),
{
    assert(seq![' ', '=', '>', ' '] =~= seq![' '] + (seq!['='] + (seq!['>'] + seq![' '])));
    lemma_run_good(g, ' ', seq!['='] + (seq!['>'] + seq![' ']));
    let ga = lex_step(g, ' ')->Good_0;
    lemma_run_good(ga, '=', seq!['>'] + seq![' ']);
    let gb = lex_step(ga, '=')->Good_0;
    lemma_lex_run_cons(gb, '>', seq![' ']);
    match lex_step(gb, '>') {
        StepRes::Good(gc, t) => {
            lemma_lex_run_cons(gc, ' ', Seq::empty());
            let r = lex_run(g, seq![' ', '=', '>', ' ']);
            assert(r.toks =~= t);
            assert(payloads(r.toks) =~= seq![TokenModel::Assignment]);
        },
        StepRes::Bad(gc, e) => {
            assert(false);
        },
    }
}

/// A serialized value followed by its separator and newline lexes to the
/// value's tokens and one `Separator`, ending between lexemes.
#[verifier::rlimit(100)]
pub proof fn lemma_lex_value(g: LexCfg, v: ValueModel, depth: nat)
    requires
        g.state == State::Initial,
        wf_value(v),
    ensures
        ({
            let r = lex_run(g, value_text(v, depth) + seq![',', '\n']);
            &&& r.err is None
            &&& r.cfg.state == State::Initial
            &&& payloads(r.toks) == toks_of_value(v) + seq![TokenModel::Separator]
        }),
    decreases v,
{
    let text = value_text(v, depth) + seq![',', '\n'];
    match v {
        ValueModel::Null => {
            let w = seq!['n', 'u', 'l', 'l'];
            assert(is_ident_start(w[0]) && forall|i: int| 0 <= i < w.len() ==> is_ident_char(w[i]))
                by {
                assert('n' as u32 == 110 && 'u' as u32 == 117 && 'l' as u32 == 108);
            }
            lemma_lex_word_value(g, w);
            assert(payloads(lex_run(g, text).toks) =~= toks_of_value(v) + seq![
                TokenModel::Separator,
            ]);
        },
        ValueModel::Bool(b) => {
            if b {
                let w = seq!['t', 'r', 'u', 'e'];
                assert(is_ident_start(w[0]) && forall|i: int|
                    0 <= i < w.len() ==> is_ident_char(w[i])) by {
                    assert('t' as u32 == 116 && 'r' as u32 == 114 && 'u' as u32 == 117 && 'e' as u32
                        == 101);
                }
                lemma_lex_word_value(g, w);
                assert(payloads(lex_run(g, text).toks) =~= toks_of_value(v) + seq![
                    TokenModel::Separator,
                ]);
            } else {
                let w = seq!['f', 'a', 'l', 's', 'e'];
                assert(is_ident_start(w[0]) && forall|i: int|
                    0 <= i < w.len() ==> is_ident_char(w[i])) by {
                    assert('f' as u32 == 102 && 'a' as u32 == 97 && 'l' as u32 == 108 && 's' as u32
                        == 115 && 'e' as u32 == 101);
                }
                lemma_lex_word_value(g, w);
                assert(payloads(lex_run(g, text).toks) =~= toks_of_value(v) + seq![
                    TokenModel::Separator,
                ]);
            }
        },
        ValueModel::Int(n) => {
            lemma_dec_digits_ok(n as nat);
            assert(int_text(n as int) == dec_digits(n as nat));
            assert(!contains_dot(dec_digits(n as nat))) by {
                assert(!is_digit('.')) by {
                    assert('.' as u32 == 46);
                }
                if contains_dot(dec_digits(n as nat)) {
                    let j = choose|j: int|
                        0 <= j < dec_digits(n as nat).len() && (#[trigger] dec_digits(n as nat)[j])
                            == '.';
                    assert(is_digit(dec_digits(n as nat)[j]));
                }
            }
            lemma_lex_number_value(g, dec_digits(n as nat));
            assert(payloads(lex_run(g, text).toks) =~= toks_of_value(v) + seq![
                TokenModel::Separator,
            ]);
        },
        ValueModel::Float(f) => {
            let t = float_render(f.text);
            crate::laws::lemma_float_render_has_dot(f.text);
            assert(t.len() > 0 && is_digit(t[0])) by {
                assert(t[0] == f.text[0]);
            }
            assert(forall|i: int| 0 <= i < t.len() ==> is_digit(t[i]) || t[i] == '.') by {
                assert('.' as u32 == 46 && '0' as u32 == 48);
                if !contains_dot(f.text) {
                    assert(forall|i: int|
                        0 <= i < t.len() ==> t[i] == (if i < f.text.len() {
                            f.text[i]
                        } else if i == f.text.len() {
                            '.'
                        } else {
                            '0'
                        }));
                }
            }
            lemma_lex_number_value(g, t);
            assert(payloads(lex_run(g, text).toks) =~= toks_of_value(v) + seq![
                TokenModel::Separator,
            ]);
        },
        ValueModel::Str(str0) => {
            assert(text =~= php_quote(str0) + seq![',', '\n']);
            lemma_lex_run_app(g, php_quote(str0), seq![',', '\n']);
            lemma_quote_sound(g, str0);
            let ga = lex_run(g, php_quote(str0)).cfg;
            lemma_lex_sep_nl(ga);
            let r = lex_run(g, text);
            assert(payloads(r.toks) =~= toks_of_value(v) + seq![TokenModel::Separator]) by {
                let t1 = lex_run(g, php_quote(str0)).toks;
                let t2 = lex_run(ga, seq![',', '\n']).toks;
                assert(r.toks == t1 + t2);
                assert(payloads(t1 + t2) =~= payloads(t1) + payloads(t2));
                assert(payloads(t1) =~= seq![str_tok(str0)]);
            }
        },
        ValueModel::Array(ps) => {
            if ps.len() == 0 {
                assert(text =~= seq!['['] + (seq![']'] + (seq![','] + seq!['\n'])));
                lemma_lex_run_cons(g, '[', seq![']'] + (seq![','] + seq!['\n']));
                match lex_step(g, '[') {
                    StepRes::Good(ga, t1) => {
                        lemma_lex_run_cons(ga, ']', seq![','] + seq!['\n']);
                        match lex_step(ga, ']') {
                            StepRes::Good(gb, t2) => {
                                lemma_lex_run_cons(gb, ',', seq!['\n']);
                                match lex_step(gb, ',') {
                                    StepRes::Good(gc, t3) => {
                                        lemma_lex_run_cons(gc, '\n', Seq::empty());
                                        let r = lex_run(g, text);
                                        assert(r.err is None);
                                        assert(payloads(r.toks) =~= toks_of_value(v) + seq![
                                            TokenModel::Separator,
                                        ]);
                                    },
                                    StepRes::Bad(gc, e) => {
                                        assert(false);
                                    },
                                }
                            },
                            StepRes::Bad(gb, e) => {
                                assert(false);
                            },
                        }
                    },
                    StepRes::Bad(ga, e) => {
                        assert(false);
                    },
                }
            } else {
                let inner = pairs_text(ps, depth + 1);
                let tail1 = inner + (tab_text(depth) + (seq![']'] + seq![',', '\n']));
                assert(text =~= seq!['['] + (seq!['\n'] + tail1));
                lemma_lex_run_cons(g, '[', seq!['\n'] + tail1);
                match lex_step(g, '[') {
                    StepRes::Good(ga, t1) => {
                        lemma_run_good(ga, '\n', tail1);
                        let gb = lex_step(ga, '\n')->Good_0;
                        lemma_lex_run_app(gb, inner, tab_text(depth) + (seq![']'] + seq![',', '\n']));
                        lemma_lex_pairs(gb, ps, depth + 1);
                        let gc = lex_run(gb, inner).cfg;
                        lemma_lex_run_app(gc, tab_text(depth), seq![']'] + seq![',', '\n']);
                        crate::ser::lemma_tab_text(depth);
                        assert(is_ws('\t')) by {
                            assert('\t' as u32 == 9);
                        }
                        lemma_lex_ws(gc, tab_text(depth));
                        let gd = lex_run(gc, tab_text(depth)).cfg;
                        lemma_lex_run_cons(gd, ']', seq![',', '\n']);
                        match lex_step(gd, ']') {
                            StepRes::Good(ge, t2) => {
                                lemma_lex_sep_nl(ge);
                                let r = lex_run(g, text);
                                assert(r.err is None);
                                assert(r.cfg.state == State::Initial);
                                assert(payloads(r.toks) =~= toks_of_value(v) + seq![
                                    TokenModel::Separator,
                                ]) by {
                                    let ti = lex_run(gb, inner).toks;
                                    let ts = lex_run(ge, seq![',', '\n']).toks;
                                    assert(r.toks == t1 + (ti + (Seq::<(Position,
                                    TokenModel)>::empty() + (t2 + ts))));
                                    assert(payloads(t1 + (ti + (Seq::<(Position,
                                    TokenModel)>::empty() + (t2 + ts)))) =~= payloads(t1)
                                        + payloads(ti) + payloads(t2) + payloads(ts));
                                    assert(payloads(ti) == toks_of_pairs(ps));
                                }
                            },
                            StepRes::Bad(ge, e) => {
                                assert(false);
                            },
                        }
                    },
                    StepRes::Bad(ga, e) => {
                        assert(false);
                    },
                }
            }
        },
    }
}

/// The serialized lines of a sibling sequence lex to the pairs' tokens,
/// ending between lexemes.
#[verifier::rlimit(100)]
pub proof fn lemma_lex_pairs(g: LexCfg, ps: Seq<PairModel>, depth: nat)
    requires
        g.state == State::Initial,
        wf_pairs(ps),
    ensures
        ({
            let r = lex_run(g, pairs_text(ps, depth));
            &&& r.err is None
            &&& r.cfg.state == State::Initial
            &&& payloads(r.toks) == toks_of_pairs(ps)
        }),
    decreases ps,
{
    if ps.len() == 0 {
        assert(payloads(Seq::<(Position, TokenModel)>::empty()) =~= toks_of_pairs(ps));
    } else {
        let p = ps[0];
        let kp = crate::kvp::key_prefix_text(p.key);
        let vtext = value_text(p.value, depth) + seq![',', '\n'];
        let rest = pairs_text(ps.drop_first(), depth);
        assert(pairs_text(ps, depth) =~= tab_text(depth) + (kp + (vtext + rest)));
        crate::ser::lemma_tab_text(depth);
        assert(is_ws('\t')) by {
            assert('\t' as u32 == 9);
        }
        lemma_lex_run_app(g, tab_text(depth), kp + (vtext + rest));
        lemma_lex_ws(g, tab_text(depth));
        let ga = lex_run(g, tab_text(depth)).cfg;
        lemma_lex_run_app(ga, kp, vtext + rest);
        match p.key {
            Option::None => {
                assert(kp =~= Seq::<char>::empty());
            },
            Option::Some(k) => {
                assert(kp =~= php_quote(k) + seq![' ', '=', '>', ' ']);
                lemma_lex_run_app(ga, php_quote(k), seq![' ', '=', '>', ' ']);
                lemma_quote_sound(ga, k);
                let gk = lex_run(ga, php_quote(k)).cfg;
                lemma_lex_arrow(gk);
            },
        }
        let gb = lex_run(ga, kp).cfg;
        assert(gb.state == State::Initial);
        lemma_lex_run_app(gb, vtext, rest);
        lemma_lex_value(gb, p.value, depth);
        let gc = lex_run(gb, vtext).cfg;
        lemma_lex_pairs(gc, ps.drop_first(), depth);
        let r = lex_run(g, pairs_text(ps, depth));
        assert(r.err is None);
        assert(r.cfg.state == State::Initial);
        assert(payloads(r.toks) =~= toks_of_pairs(ps)) by {
            let tk = lex_run(ga, kp).toks;
            let tv = lex_run(gb, vtext).toks;
            let tr = lex_run(gc, rest).toks;
            assert(r.toks == Seq::<(Position, TokenModel)>::empty() + (tk + (tv + tr)));
            assert(payloads(Seq::<(Position, TokenModel)>::empty() + (tk + (tv + tr)))
                =~= payloads(tk) + payloads(tv) + payloads(tr));
            assert(payloads(tk) == (match p.key {
                Option::None => Seq::<TokenModel>::empty(),
                Option::Some(k) => seq![str_tok(k), TokenModel::Assignment],
            })) by {
                match p.key {
                    Option::None => {
                        assert(payloads(tk) =~= Seq::<TokenModel>::empty());
                    },
                    Option::Some(k) => {
                        let t1 = lex_run(ga, php_quote(k)).toks;
                        let t2 = lex_run(lex_run(ga, php_quote(k)).cfg, seq![' ', '=', '>', ' ']).toks;
                        assert(tk == t1 + t2);
                        assert(payloads(t1 + t2) =~= payloads(t1) + payloads(t2));
                        assert(payloads(t1) =~= seq![str_tok(k)]);
                        assert(payloads(tk) =~= seq![str_tok(k), TokenModel::Assignment]);
                    },
                }
            }
            assert(toks_of_pair(p) == (match p.key {
                Option::None => Seq::<TokenModel>::empty(),
                Option::Some(k) => seq![str_tok(k), TokenModel::Assignment],
            }) + (toks_of_value(p.value) + seq![TokenModel::Separator]));
        }
    }
}


/// Lexing a whole serialized document: the `return` word, the root
/// bracket, the pairs' tokens, and the closing bracket.
#[verifier::rlimit(100)]
pub proof fn lemma_lex_doc(ps: Seq<PairModel>)
    requires
        wf_pairs(ps),
    ensures
        ({
            let lr = crate::lex::lex_text(crate::ser::ser_text(ps));
            &&& lr is Ok
            &&& payloads(lr->Ok_0) == seq![
                TokenModel::Identifier(seq!['r', 'e', 't', 'u', 'r', 'n']),
                TokenModel::OpenSet,
            ] + toks_of_pairs(ps) + seq![TokenModel::CloseSet]
        }),
{
    let g = crate::lex::init_cfg();
    let text = crate::ser::ser_text(ps);
    let inner = pairs_text(ps, 1);
    let epi = seq![']'] + (seq![';'] + seq!['\n']);
    let word = seq!['e', 't', 'u', 'r', 'n'];
    let after_word = seq![' '] + (seq!['['] + (seq!['\n'] + (inner + epi)));
    assert(text =~= seq!['<'] + (seq!['?'] + (seq!['p'] + (seq!['h'] + (seq!['p'] + (seq!['\n']
        + (seq!['r'] + (word + after_word))))))));
    lemma_run_good(g, '<', seq!['?'] + (seq!['p'] + (seq!['h'] + (seq!['p'] + (seq!['\n'] + (seq![
        'r',
    ] + (word + after_word)))))));
    let g1 = lex_step(g, '<')->Good_0;
    lemma_run_good(g1, '?', seq!['p'] + (seq!['h'] + (seq!['p'] + (seq!['\n'] + (seq!['r'] + (word
        + after_word))))));
    let g2 = lex_step(g1, '?')->Good_0;
    lemma_run_good(g2, 'p', seq!['h'] + (seq!['p'] + (seq!['\n'] + (seq!['r'] + (word
        + after_word)))));
    let g3 = lex_step(g2, 'p')->Good_0;
    lemma_run_good(g3, 'h', seq!['p'] + (seq!['\n'] + (seq!['r'] + (word + after_word))));
    let g4 = lex_step(g3, 'h')->Good_0;
    lemma_run_good(g4, 'p', seq!['\n'] + (seq!['r'] + (word + after_word)));
    let g5 = lex_step(g4, 'p')->Good_0;
    lemma_run_good(g5, '\n', seq!['r'] + (word + after_word));
    let g6 = lex_step(g5, '\n')->Good_0;
    assert(g6.state == State::Initial);
    lemma_run_good(g6, 'r', word + after_word);
    let g7 = lex_step(g6, 'r')->Good_0;
    assert(g7.state == State::Identifier && g7.buf == seq!['r']);
    lemma_lex_run_app(g7, word, after_word);
    assert(forall|i: int| 0 <= i < word.len() ==> is_ident_char(word[i])) by {
        assert('e' as u32 == 101 && 't' as u32 == 116 && 'u' as u32 == 117 && 'r' as u32 == 114
            && 'n' as u32 == 110);
    }
    lemma_lex_word_tail(g7, word);
    let g8 = lex_run(g7, word).cfg;
    assert(g8.state == State::Identifier);
    assert(g8.buf =~= seq!['r', 'e', 't', 'u', 'r', 'n']);
    lemma_lex_run_cons(g8, ' ', seq!['['] + (seq!['\n'] + (inner + epi)));
    match lex_step(g8, ' ') {
        StepRes::Good(g9, t1) => {
            assert(payloads(t1) =~= seq![TokenModel::Identifier(seq!['r', 'e', 't', 'u', 'r', 'n'])]);
            assert(g9.state == State::Initial);
            lemma_lex_run_cons(g9, '[', seq!['\n'] + (inner + epi));
            match lex_step(g9, '[') {
                StepRes::Good(g10, t2) => {
                    assert(payloads(t2) =~= seq![TokenModel::OpenSet]);
                    lemma_run_good(g10, '\n', inner + epi);
                    let g11 = lex_step(g10, '\n')->Good_0;
                    assert(g11.state == State::Initial);
                    lemma_lex_run_app(g11, inner, epi);
                    lemma_lex_pairs(g11, ps, 1);
                    let g12 = lex_run(g11, inner).cfg;
                    assert(g12.state == State::Initial);
                    lemma_lex_run_cons(g12, ']', seq![';'] + seq!['\n']);
                    match lex_step(g12, ']') {
                        StepRes::Good(g13, t3) => {
                            assert(payloads(t3) =~= seq![TokenModel::CloseSet]);
                            assert(g13.state == State::Initial);
                            lemma_run_good(g13, ';', seq!['\n']);
                            let g14 = lex_step(g13, ';')->Good_0;
                            lemma_lex_run_cons(g14, '\n', Seq::empty());
                            let g15 = lex_step(g14, '\n')->Good_0;
                            assert(g15.state == State::Initial);
                            let r = lex_run(g, text);
                            assert(r.err is None);
                            assert(r.cfg.state == State::Initial);
                            let ti = lex_run(g11, inner).toks;
                            assert(r.toks =~= t1 + (t2 + (ti + t3)));
                            assert(payloads(t1 + (t2 + (ti + t3))) =~= payloads(t1) + payloads(t2)
                                + payloads(ti) + payloads(t3));
                            assert(crate::lex::eof_model(r.cfg) == Result::<Seq<(Position,
                            TokenModel)>, crate::lex::LexError>::Ok(Seq::empty()));
                            assert(crate::lex::lex_text(text) == Result::<Seq<(Position,
                            TokenModel)>, crate::lex::LexError>::Ok(r.toks + Seq::empty()));
                            assert(r.toks + Seq::<(Position, TokenModel)>::empty() =~= r.toks);
                            assert(payloads(r.toks) =~= seq![
                                TokenModel::Identifier(seq!['r', 'e', 't', 'u', 'r', 'n']),
                                TokenModel::OpenSet,
                            ] + toks_of_pairs(ps) + seq![TokenModel::CloseSet]);
                        },
                        StepRes::Bad(g13, e) => {
                            assert(false);
                        },
                    }
                },
                StepRes::Bad(g10, e) => {
                    assert(false);
                },
            }
        },
        StepRes::Bad(g9, e) => {
            assert(false);
        },
    }
}


/// The rendering of a nonnegative number reads back as its value.
pub proof fn lemma_digits_val_render(m: nat)
    ensures
        digits_val(dec_digits(m)) == m,
    decreases m,
{
    if m < 10 {
        assert(dec_digits(m) == seq![crate::ser::digit_char(m as int)]);
        assert(dec_digits(m).drop_last() =~= Seq::<char>::empty());
        assert(dec_digits(m).last() == crate::ser::digit_char(m as int));
        assert(digits_val(Seq::<char>::empty()) == 0);
        assert(crate::lex::digit_val(crate::ser::digit_char(m as int)) == m);
    } else {
        lemma_digits_val_render(m / 10);
        let d = dec_digits(m / 10);
        let c = crate::ser::digit_char((m % 10) as int);
        assert((d + seq![c]).drop_last() =~= d);
        assert((d + seq![c]).last() == c);
        assert(crate::lex::digit_val(c) == m % 10);
    }
}

/// Parsing the decimal rendering of a nonnegative 64-bit integer yields
/// the integer back.
pub proof fn lemma_int_parse_render(n: i64)
    requires
        n >= 0,
    ensures
        int_parse(dec_digits(n as nat)) == Option::Some(n as int),
{
    lemma_dec_digits_ok(n as nat);
    lemma_digits_val_render(n as nat);
    assert(all_digits(dec_digits(n as nat)));
}

} // verus!
