use crate::kvp::{
    key_prefix_text, pairs_model, php_quote, php_str, Float, KeyValuePair, PairModel, Value,
    ValueModel,
};
use crate::text::{char_from_u32, string_push};
use vstd::prelude::*;
use vstd::string::{StrSliceExecFns, StringExecFns};

verus! {

// --- the serialized text, as a function of the tree ----------------------

/// The character of a decimal digit value.
pub open spec fn digit_char(d: int) -> char {
    (48 + d) as char
}

/// The decimal rendering of a nonnegative number.
pub open spec fn dec_digits(n: nat) -> Seq<char>
    decreases n,
{
    if n < 10 {
        seq![digit_char(n as int)]
    } else {
        dec_digits(n / 10) + seq![digit_char((n % 10) as int)]
    }
}

/// The decimal rendering of an integer.
pub open spec fn int_text(n: int) -> Seq<char> {
    if n >= 0 {
        dec_digits(n as nat)
    } else {
        seq!['-'] + dec_digits((-n) as nat)
    }
}

/// One tab per nesting depth.
pub open spec fn tab_text(depth: nat) -> Seq<char>
    decreases depth,
{
    if depth == 0 {
        Seq::empty()
    } else {
        tab_text((depth - 1) as nat) + seq!['\t']
    }
}

/// The opening preamble.
pub open spec fn preamble() -> Seq<char> {
    seq!['<', '?', 'p', 'h', 'p', '\n', 'r', 'e', 't', 'u', 'r', 'n', ' ', '[', '\n']
}

/// The closing bracket and statement terminator.
pub open spec fn epilogue() -> Seq<char> {
    seq![']', ';', '\n']
}

/// Whether the text contains a decimal point.
pub open spec fn contains_dot(t: Seq<char>) -> bool {
    exists|j: int| 0 <= j < t.len() && t[j] == '.'
}

/// The rendering of a float's decimal text: a trailing `.0` is forced
/// when the text has no decimal point, so an integral-valued float never
/// collapses into an integer literal.
pub open spec fn float_render(t: Seq<char>) -> Seq<char> {
    if contains_dot(t) {
        t
    } else {
        t + seq!['.', '0']
    }
}

/// The rendering of one value at the given nesting depth.
pub open spec fn value_text(v: ValueModel, depth: nat) -> Seq<char>
    decreases v,
{
    match v {
        ValueModel::Null => seq!['n', 'u', 'l', 'l'],
        ValueModel::Bool(b) => if b {
            seq!['t', 'r', 'u', 'e']
        } else {
            seq!['f', 'a', 'l', 's', 'e']
        },
        ValueModel::Int(n) => int_text(n as int),
        ValueModel::Float(f) => float_render(f.text),
        ValueModel::Str(s) => php_quote(s),
        ValueModel::Array(ps) => if ps.len() == 0 {
            seq!['[', ']']
        } else {
            seq!['[', '\n'] + pairs_text(ps, depth + 1) + tab_text(depth) + seq![']']
        },
    }
}

/// The line of one pair: indentation, key part, value, trailing comma.
pub open spec fn line_text(p: PairModel, depth: nat) -> Seq<char> {
    tab_text(depth) + key_prefix_text(p.key) + value_text(p.value, depth) + seq![',', '\n']
}

/// The lines of a sibling sequence, one pair per line.
pub open spec fn pairs_text(ps: Seq<PairModel>, depth: nat) -> Seq<char>
    decreases ps,
{
    if ps.len() == 0 {
        Seq::empty()
    } else {
        tab_text(depth) + key_prefix_text(ps[0].key) + value_text(ps[0].value, depth)
            + seq![',', '\n'] + pairs_text(ps.drop_first(), depth)
    }
}

/// The whole serialized document.
pub open spec fn ser_text(ps: Seq<PairModel>) -> Seq<char> {
    preamble() + pairs_text(ps, 1) + epilogue()
}

/// `pairs_text` grows line by line.
pub proof fn lemma_pairs_text_take(ps: Seq<PairModel>, depth: nat, i: int)
    requires
        0 <= i < ps.len(),
    ensures
        pairs_text(ps.take(i + 1), depth) == pairs_text(ps.take(i), depth) + line_text(ps[i], depth),
    decreases i,
{
    if i == 0 {
        assert(ps.take(1)[0] == ps[0]);
        assert(ps.take(1).drop_first() =~= Seq::<PairModel>::empty());
        assert(ps.take(0) =~= Seq::<PairModel>::empty());
        assert(pairs_text(Seq::<PairModel>::empty(), depth) == Seq::<char>::empty());
        assert(pairs_text(ps.take(1), depth) =~= line_text(ps[0], depth));
        assert(pairs_text(ps.take(0), depth) + line_text(ps[0], depth) =~= line_text(ps[0], depth));
    } else {
        lemma_pairs_text_take(ps.drop_first(), depth, i - 1);
        assert(ps.take(i + 1)[0] == ps[0]);
        assert(ps.take(i + 1).drop_first() =~= ps.drop_first().take(i));
        assert(ps.take(i).drop_first() =~= ps.drop_first().take(i - 1));
        assert(ps.take(i)[0] == ps[0]);
        assert(ps.drop_first()[i - 1] == ps[i]);
        let head = tab_text(depth) + key_prefix_text(ps[0].key) + value_text(ps[0].value, depth)
            + seq![',', '\n'];
        assert(pairs_text(ps.take(i + 1), depth) == head + pairs_text(ps.drop_first().take(i), depth));
        assert(pairs_text(ps.take(i), depth) == head + pairs_text(ps.drop_first().take(i - 1), depth));
        assert(head + (pairs_text(ps.drop_first().take(i - 1), depth) + line_text(ps[i], depth))
            =~= (head + pairs_text(ps.drop_first().take(i - 1), depth)) + line_text(ps[i], depth));
    }
}

/// The tab text is that many tabs.
pub proof fn lemma_tab_text(depth: nat)
    ensures
        tab_text(depth).len() == depth,
        forall|j: int| 0 <= j < depth ==> tab_text(depth)[j] == '\t',
    decreases depth,
{
    if depth > 0 {
        lemma_tab_text((depth - 1) as nat);
    }
}

// --- executable rendering -------------------------------------------------

/// Appends the decimal digits of a nonnegative number.
fn push_u64_digits(buf: &mut String, m: u64)
    ensures
        final(buf)@ == old(buf)@ + dec_digits(m as nat),
    decreases m,
{
    if m < 10 {
        match char_from_u32(48 + m as u32) {
            Option::Some(c) => {
                string_push(buf, c);
                proof {
                    assert(c == digit_char(m as int));
                    assert(final(buf)@ =~= old(buf)@ + dec_digits(m as nat));
                }
            },
            Option::None => {
                proof {
                    assert(false);
                }
            },
        }
    } else {
        push_u64_digits(buf, m / 10);
        let d = m % 10;
        match char_from_u32(48 + d as u32) {
            Option::Some(c) => {
                string_push(buf, c);
                proof {
                    assert(c == digit_char(d as int));
                    assert((m as nat) % 10 == d as nat);
                    assert((m as nat) / 10 == (m / 10) as nat);
                    assert(final(buf)@ =~= old(buf)@ + dec_digits(m as nat));
                }
            },
            Option::None => {
                proof {
                    assert(false);
                }
            },
        }
    }
}

/// Appends the decimal rendering of an integer.
fn push_i64(buf: &mut String, n: i64)
    ensures
        final(buf)@ == old(buf)@ + int_text(n as int),
{
    if n < 0 {
        string_push(buf, '-');
        let m: u64 = if n == i64::MIN {
            9_223_372_036_854_775_808
        } else {
            (-n) as u64
        };
        proof {
            assert(m as nat == (-(n as int)) as nat);
        }
        let ghost mid = buf@;
        push_u64_digits(buf, m);
        proof {
            assert(final(buf)@ =~= old(buf)@ + int_text(n as int));
        }
    } else {
        push_u64_digits(buf, n as u64);
    }
}

/// Appends the rendering of a float's decimal text, forcing a trailing
/// `.0` when it has no decimal point.
fn push_float(buf: &mut String, f: &Float)
    ensures
        final(buf)@ == old(buf)@ + float_render(f.text@),
{
    let t = f.text.as_str();
    let n = t.unicode_len();
    let mut has_dot = false;
    let mut i: usize = 0;
    while i < n
        invariant
            0 <= i <= n,
            n == t@.len(),
            t@ == f.text@,
            has_dot == (exists|j: int| 0 <= j < i && t@[j] == '.'),
        decreases n - i,
    {
        if t.get_char(i) == '.' {
            proof {
                assert(t@[i as int] == '.');
            }
            has_dot = true;
        }
        i = i + 1;
    }
    let ghost start = buf@;
    buf.append(t);
    if !has_dot {
        string_push(buf, '.');
        string_push(buf, '0');
        proof {
            assert(!contains_dot(f.text@));
            assert(final(buf)@ =~= start + float_render(f.text@));
        }
    } else {
        proof {
            assert(contains_dot(f.text@));
        }
    }
}

/// Appends one tab per element of the carried indentation.
fn flush_tabs(buf: &mut String, tabs: &Vec<char>)
    requires
        forall|j: int| 0 <= j < tabs@.len() ==> tabs@[j] == '\t',
    ensures
        final(buf)@ == old(buf)@ + tab_text(tabs@.len()),
{
    let n = tabs.len();
    let mut i: usize = 0;
    proof {
        lemma_tab_text(tabs@.len());
    }
    while i < n
        invariant
            0 <= i <= n,
            n == tabs@.len(),
            forall|j: int| 0 <= j < tabs@.len() ==> tabs@[j] == '\t',
            buf@ == old(buf)@ + tab_text(tabs@.len()).take(i as int),
        decreases n - i,
    {
        string_push(buf, tabs[i]);
        proof {
            lemma_tab_text(tabs@.len());
            assert(buf@ =~= old(buf)@ + tab_text(tabs@.len()).take(i + 1 as int));
        }
        i = i + 1;
    }
    proof {
        assert(tab_text(tabs@.len()).take(n as int) =~= tab_text(tabs@.len()));
    }
}

/// Writes the lines of a sibling sequence, one pair per line, recursing
/// into nested sets with one more tab of indentation.
#[verifier::loop_isolation(false)]
#[verifier::rlimit(60)]
fn ser_pairs(output: &Vec<KeyValuePair>, tabs: &mut Vec<char>, buf: &mut String)
    requires
        forall|j: int| 0 <= j < old(tabs)@.len() ==> old(tabs)@[j] == '\t',
    ensures
        final(tabs)@ == old(tabs)@,
        final(buf)@ == old(buf)@ + pairs_text(pairs_model(output@), old(tabs)@.len()),
    decreases output@,
{
    let ghost depth = tabs@.len();
    let ghost pm = pairs_model(output@);
    let ghost start = buf@;
    proof {
        crate::kvp::lemma_pairs_model(output@);
        assert(pm.take(0) =~= Seq::<PairModel>::empty());
        assert(buf@ =~= start + pairs_text(pm.take(0), depth));
    }
    let mut i: usize = 0;
    while i < output.len()
        invariant
            0 <= i <= output@.len(),
            tabs@ == old(tabs)@,
            buf@ == start + pairs_text(pm.take(i as int), depth),
        decreases output@.len() - i,
    {
        let ghost line_start = buf@;
        flush_tabs(buf, tabs);
        let kp = output[i].key_prefix();
        buf.append(kp.as_str());
        let ghost val_start = buf@;
        proof {
            assert(val_start =~= line_start + tab_text(depth) + key_prefix_text(pm[i as int].key));
        }
        match &output[i].value {
            Value::Null => {
                buf.append("null");
                proof {
                    reveal_strlit("null");
                    assert("null"@ =~= seq!['n', 'u', 'l', 'l']);
                    assert(buf@ =~= val_start + value_text(pm[i as int].value, depth));
                }
            },
            Value::Bool(b) => {
                if *b {
                    buf.append("true");
                    proof {
                        reveal_strlit("true");
                        assert("true"@ =~= seq!['t', 'r', 'u', 'e']);
                        assert(buf@ =~= val_start + value_text(pm[i as int].value, depth));
                    }
                } else {
                    buf.append("false");
                    proof {
                        reveal_strlit("false");
                        assert("false"@ =~= seq!['f', 'a', 'l', 's', 'e']);
                        assert(buf@ =~= val_start + value_text(pm[i as int].value, depth));
                    }
                }
            },
            Value::Int(x) => {
                push_i64(buf, *x);
                proof {
                    assert(buf@ =~= val_start + value_text(pm[i as int].value, depth));
                }
            },
            Value::Float(f) => {
                push_float(buf, f);
                proof {
                    assert(buf@ =~= val_start + value_text(pm[i as int].value, depth));
                }
            },
            Value::Str(x) => {
                let q = php_str(x.as_str());
                buf.append(q.as_str());
                proof {
                    assert(buf@ =~= val_start + value_text(pm[i as int].value, depth));
                }
            },
            Value::Array(put) => {
                if put.len() == 0 {
                    string_push(buf, '[');
                    string_push(buf, ']');
                    proof {
                        assert(pairs_model(put@) =~= Seq::<PairModel>::empty());
                        assert(buf@ =~= val_start + value_text(pm[i as int].value, depth));
                    }
                } else {
                    string_push(buf, '[');
                    string_push(buf, '\n');
                    tabs.push('\t');
                    proof {
                        assert(decreases_to!(output@ => put@));
                        crate::kvp::lemma_pairs_model(put@);
                    }
                    ser_pairs(put, tabs, buf);
                    let popped = tabs.pop();
                    proof {
                        assert(tabs@ =~= old(tabs)@);
                    }
                    flush_tabs(buf, tabs);
                    string_push(buf, ']');
                    proof {
                        assert(pairs_model(put@).len() > 0);
                        assert(buf@ =~= val_start + (seq!['[', '\n'] + pairs_text(pairs_model(put@), depth + 1)
                            + tab_text(depth) + seq![']']));
                        assert(buf@ =~= val_start + value_text(pm[i as int].value, depth));
                    }
                }
            },
        }
        string_push(buf, ',');
        string_push(buf, '\n');
        proof {
            lemma_pairs_text_take(pm, depth, i as int);
            assert(buf@ =~= line_start + line_text(pm[i as int], depth));
            assert(buf@ =~= start + pairs_text(pm.take(i + 1 as int), depth));
        }
        i = i + 1;
    }
    proof {
        assert(pm.take(output@.len() as int) =~= pm);
    }
}

/// Serializes a tree as the dialect's source text: the opening preamble,
/// one line per sibling with one tab per nesting depth, and the closing
/// bracket with its statement terminator.
pub fn ser_str(output: &Vec<KeyValuePair>) -> (r: String)
    ensures
        r@ == ser_text(pairs_model(output@)),
{
    let mut tabs: Vec<char> = Vec::new();
    tabs.push('\t');
    let mut buf = String::new();
    buf.append("<?php\nreturn [\n");
    proof {
        reveal_strlit("<?php\nreturn [\n");
        assert(buf@ =~= preamble());
    }
    ser_pairs(output, &mut tabs, &mut buf);
    let ghost mid = buf@;
    buf.append("];\n");
    proof {
        reveal_strlit("];\n");
        assert("];\n"@ =~= epilogue());
        assert(tabs@.len() == 1);
        assert(buf@ =~= ser_text(pairs_model(output@)));
    }
    buf
}

} // verus!
