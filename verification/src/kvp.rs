use crate::text::string_push;
use vstd::prelude::*;
use vstd::string::{StrSliceExecFns, StringExecFns};

verus! {

/// A floating-point value of the tree.
///
/// Native floating point stays outside the verified library, so the value
/// is carried as its IEEE-754 bit pattern together with the decimal text it
/// renders as.  Callers that work with native floats convert at the
/// boundary: `bits` is the `to_bits` image of the value and `text` its
/// plain decimal rendering (digits and at most one dot, no exponent), as
/// the standard formatter writes it.
#[derive(Debug, Clone, PartialEq, Eq)]
pub struct Float {
    /// The IEEE-754 bit pattern of the 64-bit value.
    pub bits: u64,
    /// The decimal rendering of the value.
    pub text: String,
}

/// A value of a node.
#[derive(Debug, PartialEq, Eq)]
pub enum Value {
    /// Null.
    Null,
    /// Boolean.
    Bool(bool),
    /// Integral.
    Int(i64),
    /// Floating point.
    Float(Float),
    /// String.
    Str(String),
    /// Set of nodes.
    Array(Vec<KeyValuePair>),
}

/// A tree node: an optional key and a value.
#[derive(Debug, PartialEq, Eq)]
pub struct KeyValuePair {
    /// The name of this node, if any.
    pub key: Option<String>,
    /// The value of this node.
    pub value: Value,
}

/// The mathematical model of a `Float`.
pub struct FloatModel {
    /// The IEEE-754 bit pattern.
    pub bits: u64,
    /// The decimal rendering, as a character sequence.
    pub text: Seq<char>,
}

/// The mathematical model of a `Value`.
pub enum ValueModel {
    /// Null.
    Null,
    /// Boolean.
    Bool(bool),
    /// Integral.
    Int(i64),
    /// Floating point.
    Float(FloatModel),
    /// String.
    Str(Seq<char>),
    /// Set of nodes.
    Array(Seq<PairModel>),
}

/// The mathematical model of a `KeyValuePair`.
pub struct PairModel {
    /// The key, if any.
    pub key: Option<Seq<char>>,
    /// The value.
    pub value: ValueModel,
}

/// The model of a `Float`.
pub open spec fn float_model(f: Float) -> FloatModel {
    FloatModel { bits: f.bits, text: f.text@ }
}

/// The model of a `Value`.
pub open spec fn value_model(v: Value) -> ValueModel
    decreases v,
{
    match v {
        Value::Null => ValueModel::Null,
        Value::Bool(b) => ValueModel::Bool(b),
        Value::Int(n) => ValueModel::Int(n),
        Value::Float(f) => ValueModel::Float(float_model(f)),
        Value::Str(s) => ValueModel::Str(s@),
        Value::Array(items) => ValueModel::Array(pairs_model(items@)),
    }
}

/// The model of a `KeyValuePair`.
pub open spec fn pair_model(p: KeyValuePair) -> PairModel
    decreases p,
{
    PairModel { key: key_model(p.key), value: value_model(p.value) }
}

/// The model of an optional key.
pub open spec fn key_model(k: Option<String>) -> Option<Seq<char>> {
    match k {
        Option::None => Option::None,
        Option::Some(s) => Option::Some(s@),
    }
}

/// The model of a sibling sequence.
pub open spec fn pairs_model(s: Seq<KeyValuePair>) -> Seq<PairModel>
    decreases s,
{
    if s.len() == 0 {
        Seq::empty()
    } else {
        seq![pair_model(s[0])] + pairs_model(s.drop_first())
    }
}

/// `pairs_model` maps the sequence pointwise.
pub proof fn lemma_pairs_model(s: Seq<KeyValuePair>)
    ensures
        pairs_model(s).len() == s.len(),
        forall|i: int| 0 <= i < s.len() ==> pairs_model(s)[i] == pair_model(s[i]),
    decreases s.len(),
{
    if s.len() > 0 {
        lemma_pairs_model(s.drop_first());
    }
}

impl KeyValuePair {
    /// Creates a new key-value pair.
    pub fn new(key: Option<String>, value: Value) -> (r: Self)
        ensures
            pair_model(r) == (PairModel { key: key_model(key), value: value_model(value) }),
    {
        Self { key, value }
    }
}


// --- string quoting -------------------------------------------------------

/// The mode of the quoting scan: still free to choose the single-quoted
/// form, resolving a backslash, or committed to the double-quoted form.
#[derive(Debug, Clone, Copy, PartialEq, Eq)]
pub enum QuoteMode {
    /// Both candidate forms are still maintained.
    Undecided,
    /// A backslash waits for the character after it.
    UndecidedEscape,
    /// A control character has forced the double-quoted form.
    Decided,
}

/// A character that has no single-quoted representation: NUL, BEL, ESC,
/// FF, CR, LF or TAB.
pub open spec fn is_ctl(c: char) -> bool {
    c == '\u{0000}' || c == '\u{0007}' || c == '\u{001b}' || c == '\u{000c}' || c == '\r'
        || c == '\n' || c == '\t'
}

/// The double-quoted escape of a control character.
pub open spec fn ctl_escape(c: char) -> Seq<char> {
    if c == '\u{0000}' {
        seq!['\\', '0', '0', '0']
    } else if c == '\u{0007}' {
        seq!['\\', 'a']
    } else if c == '\u{001b}' {
        seq!['\\', 'e']
    } else if c == '\u{000c}' {
        seq!['\\', 'f']
    } else if c == '\r' {
        seq!['\\', 'r']
    } else if c == '\n' {
        seq!['\\', 'n']
    } else {
        seq!['\\', 't']
    }
}

/// One step of the quoting scan: the next mode and what each candidate
/// gains.  The single-quoted candidate is abandoned once the mode is
/// `Decided`.
pub open spec fn quote_step(m: QuoteMode, c: char) -> (QuoteMode, Seq<char>, Seq<char>) {
    match m {
        QuoteMode::Undecided => {
            if is_ctl(c) {
                (QuoteMode::Decided, Seq::empty(), ctl_escape(c))
            } else if c == '\'' {
                (QuoteMode::Undecided, seq!['\\', '\''], seq!['\''])
            } else if c == '\\' {
                (QuoteMode::UndecidedEscape, Seq::empty(), seq!['\\', '\\'])
            } else if c == '"' {
                (QuoteMode::Undecided, seq!['"'], seq!['\\', '"'])
            } else if c == '$' {
                (QuoteMode::Undecided, seq!['$'], seq!['\\', '$'])
            } else {
                (QuoteMode::Undecided, seq![c], seq![c])
            }
        },
        QuoteMode::UndecidedEscape => {
            if is_ctl(c) {
                (QuoteMode::Decided, Seq::empty(), ctl_escape(c))
            } else if c == '\'' {
                (QuoteMode::Undecided, seq!['\\', '\\', '\\', '\''], seq!['\''])
            } else if c == '\\' {
                (QuoteMode::Undecided, seq!['\\', '\\', '\\', '\\'], seq!['\\', '\\'])
            } else if c == '"' {
                (QuoteMode::Undecided, seq!['\\', '"'], seq!['\\', '"'])
            } else if c == '$' {
                (QuoteMode::Undecided, seq!['\\', '$'], seq!['\\', '$'])
            } else {
                (QuoteMode::Undecided, seq!['\\', c], seq![c])
            }
        },
        QuoteMode::Decided => {
            if is_ctl(c) {
                (QuoteMode::Decided, Seq::empty(), ctl_escape(c))
            } else if c == '\'' {
                (QuoteMode::Decided, Seq::empty(), seq!['\''])
            } else if c == '\\' {
                (QuoteMode::Decided, Seq::empty(), seq!['\\', '\\'])
            } else if c == '"' {
                (QuoteMode::Decided, Seq::empty(), seq!['\\', '"'])
            } else if c == '$' {
                (QuoteMode::Decided, Seq::empty(), seq!['\\', '$'])
            } else {
                (QuoteMode::Decided, Seq::empty(), seq![c])
            }
        },
    }
}

/// Folds the quoting scan over the text, concatenating what each
/// candidate gains.
pub open spec fn quote_run(m: QuoteMode, s: Seq<char>) -> (QuoteMode, Seq<char>, Seq<char>)
    decreases s.len(),
{
    if s.len() == 0 {
        (m, Seq::empty(), Seq::empty())
    } else {
        let stepped = quote_step(m, s[0]);
        let rest = quote_run(stepped.0, s.drop_first());
        (rest.0, stepped.1 + rest.1, stepped.2 + rest.2)
    }
}

/// The chosen literal for a string value: the single-quoted candidate
/// unless a control character forced the double-quoted one; a pending
/// backslash at the end is escaped.
pub open spec fn php_quote(s: Seq<char>) -> Seq<char> {
    let run = quote_run(QuoteMode::Undecided, s);
    match run.0 {
        QuoteMode::Undecided => seq!['\''] + run.1 + seq!['\''],
        QuoteMode::UndecidedEscape => seq!['\''] + run.1 + seq!['\\', '\\', '\''],
        QuoteMode::Decided => seq!['"'] + run.2 + seq!['"'],
    }
}

/// Composing two quoting scans.
pub proof fn lemma_quote_run_app(m: QuoteMode, a: Seq<char>, b: Seq<char>)
    ensures
        ({
            let ra = quote_run(m, a);
            let rb = quote_run(ra.0, b);
            quote_run(m, a + b) == (rb.0, ra.1 + rb.1, ra.2 + rb.2)
        }),
    decreases a.len(),
{
    let ra = quote_run(m, a);
    let rb = quote_run(ra.0, b);
    if a.len() == 0 {
        assert(a + b =~= b);
        assert(ra.1 + rb.1 =~= rb.1);
        assert(ra.2 + rb.2 =~= rb.2);
    } else {
        assert((a + b)[0] == a[0]);
        assert((a + b).drop_first() =~= a.drop_first() + b);
        let stepped = quote_step(m, a[0]);
        lemma_quote_run_app(stepped.0, a.drop_first(), b);
        let ra2 = quote_run(stepped.0, a.drop_first());
        let rb2 = quote_run(ra2.0, b);
        assert(stepped.1 + (ra2.1 + rb2.1) =~= (stepped.1 + ra2.1) + rb2.1);
        assert(stepped.2 + (ra2.2 + rb2.2) =~= (stepped.2 + ra2.2) + rb2.2);
    }
}

/// Whether the character is a control character the quoting scan forces
/// the double-quoted form for.
fn ch_is_ctl(c: char) -> (b: bool)
    ensures
        b == is_ctl(c),
{
    c == '\u{0000}' || c == '\u{0007}' || c == '\u{001b}' || c == '\u{000c}' || c == '\r'
        || c == '\n' || c == '\t'
}

/// Appends the double-quoted escape of a control character.
fn push_ctl_escape(buf: &mut String, c: char)
    requires
        is_ctl(c),
    ensures
        final(buf)@ == old(buf)@ + ctl_escape(c),
{
    string_push(buf, '\\');
    if c == '\u{0000}' {
        string_push(buf, '0');
        string_push(buf, '0');
        string_push(buf, '0');
    } else if c == '\u{0007}' {
        string_push(buf, 'a');
    } else if c == '\u{001b}' {
        string_push(buf, 'e');
    } else if c == '\u{000c}' {
        string_push(buf, 'f');
    } else if c == '\r' {
        string_push(buf, 'r');
    } else if c == '\n' {
        string_push(buf, 'n');
    } else {
        string_push(buf, 't');
    }
    proof {
        assert(final(buf)@ =~= old(buf)@ + ctl_escape(c));
    }
}

/// Writes a string value as the literal the dialect prefers: the
/// single-quoted form, unless a control character forces the richer
/// double-quoted escape form.
#[verifier::loop_isolation(false)]
#[verifier::rlimit(80)]
pub fn php_str(input: &str) -> (r: String)
    ensures
        r@ == php_quote(input@),
{
    let n = input.unicode_len();
    let mut d = String::new();
    let mut s = String::new();
    string_push(&mut d, '"');
    string_push(&mut s, '\'');
    let mut mode = QuoteMode::Undecided;
    proof {
        assert(d@ =~= seq!['"']);
        assert(s@ =~= seq!['\'']);
        assert(input@.take(0) =~= Seq::<char>::empty());
    }
    let mut i: usize = 0;
    while i < n
        invariant
            0 <= i <= n,
            n == input@.len(),
            mode == quote_run(QuoteMode::Undecided, input@.take(i as int)).0,
            s@ == seq!['\''] + quote_run(QuoteMode::Undecided, input@.take(i as int)).1,
            d@ == seq!['"'] + quote_run(QuoteMode::Undecided, input@.take(i as int)).2,
        decreases n - i,
    {
        let ghost pre = quote_run(QuoteMode::Undecided, input@.take(i as int));
        let c = input.get_char(i);
        let ghost stepped = quote_step(pre.0, c);
        proof {
            assert(seq![c][0] == c);
            assert(seq![c].drop_first() =~= Seq::<char>::empty());
            assert(quote_run(stepped.0, seq![c].drop_first()) == (
                stepped.0,
                Seq::<char>::empty(),
                Seq::<char>::empty(),
            ));
            assert(input@.take(i as int) + seq![c] =~= input@.take(i + 1 as int));
            lemma_quote_run_app(QuoteMode::Undecided, input@.take(i as int), seq![c]);
            assert(quote_run(pre.0, seq![c]).0 == stepped.0);
            assert(quote_run(pre.0, seq![c]).1 =~= stepped.1);
            assert(quote_run(pre.0, seq![c]).2 =~= stepped.2);
        }
        match mode {
            QuoteMode::Undecided => {
                if ch_is_ctl(c) {
                    mode = QuoteMode::Decided;
                    push_ctl_escape(&mut d, c);
                } else if c == '\'' {
                    string_push(&mut s, '\\');
                    string_push(&mut s, '\'');
                    string_push(&mut d, '\'');
                    proof {
                        assert(s@ =~= (seq!['\''] + pre.1) + stepped.1);
                    }
                } else if c == '\\' {
                    mode = QuoteMode::UndecidedEscape;
                    string_push(&mut d, '\\');
                    string_push(&mut d, '\\');
                    proof {
                        assert(d@ =~= (seq!['"'] + pre.2) + stepped.2);
                        assert(s@ =~= (seq!['\''] + pre.1) + stepped.1);
                    }
                } else if c == '"' {
                    string_push(&mut s, '"');
                    string_push(&mut d, '\\');
                    string_push(&mut d, '"');
                    proof {
                        assert(d@ =~= (seq!['"'] + pre.2) + stepped.2);
                    }
                } else if c == '$' {
                    string_push(&mut s, '$');
                    string_push(&mut d, '\\');
                    string_push(&mut d, '$');
                    proof {
                        assert(d@ =~= (seq!['"'] + pre.2) + stepped.2);
                    }
                } else {
                    string_push(&mut s, c);
                    string_push(&mut d, c);
                }
            },
            QuoteMode::UndecidedEscape => {
                if ch_is_ctl(c) {
                    mode = QuoteMode::Decided;
                    push_ctl_escape(&mut d, c);
                } else if c == '\'' {
                    mode = QuoteMode::Undecided;
                    string_push(&mut s, '\\');
                    string_push(&mut s, '\\');
                    string_push(&mut s, '\\');
                    string_push(&mut s, '\'');
                    string_push(&mut d, '\'');
                    proof {
                        assert(s@ =~= (seq!['\''] + pre.1) + stepped.1);
                    }
                } else if c == '\\' {
                    mode = QuoteMode::Undecided;
                    string_push(&mut s, '\\');
                    string_push(&mut s, '\\');
                    string_push(&mut s, '\\');
                    string_push(&mut s, '\\');
                    string_push(&mut d, '\\');
                    string_push(&mut d, '\\');
                    proof {
                        assert(s@ =~= (seq!['\''] + pre.1) + stepped.1);
                        assert(d@ =~= (seq!['"'] + pre.2) + stepped.2);
                    }
                } else if c == '"' {
                    mode = QuoteMode::Undecided;
                    string_push(&mut s, '\\');
                    string_push(&mut s, '"');
                    string_push(&mut d, '\\');
                    string_push(&mut d, '"');
                    proof {
                        assert(s@ =~= (seq!['\''] + pre.1) + stepped.1);
                        assert(d@ =~= (seq!['"'] + pre.2) + stepped.2);
                    }
                } else if c == '$' {
                    mode = QuoteMode::Undecided;
                    string_push(&mut s, '\\');
                    string_push(&mut s, '$');
                    string_push(&mut d, '\\');
                    string_push(&mut d, '$');
                    proof {
                        assert(s@ =~= (seq!['\''] + pre.1) + stepped.1);
                        assert(d@ =~= (seq!['"'] + pre.2) + stepped.2);
                    }
                } else {
                    mode = QuoteMode::Undecided;
                    string_push(&mut s, '\\');
                    string_push(&mut s, c);
                    string_push(&mut d, c);
                    proof {
                        assert(s@ =~= (seq!['\''] + pre.1) + stepped.1);
                    }
                }
            },
            QuoteMode::Decided => {
                if ch_is_ctl(c) {
                    push_ctl_escape(&mut d, c);
                } else if c == '\'' {
                    string_push(&mut d, '\'');
                } else if c == '\\' {
                    string_push(&mut d, '\\');
                    string_push(&mut d, '\\');
                    proof {
                        assert(d@ =~= (seq!['"'] + pre.2) + stepped.2);
                    }
                } else if c == '"' {
                    string_push(&mut d, '\\');
                    string_push(&mut d, '"');
                    proof {
                        assert(d@ =~= (seq!['"'] + pre.2) + stepped.2);
                    }
                } else if c == '$' {
                    string_push(&mut d, '\\');
                    string_push(&mut d, '$');
                    proof {
                        assert(d@ =~= (seq!['"'] + pre.2) + stepped.2);
                    }
                } else {
                    string_push(&mut d, c);
                }
            },
        }
        proof {
            let post = quote_run(QuoteMode::Undecided, input@.take(i + 1 as int));
            assert(post.0 == stepped.0);
            assert(post.1 == pre.1 + stepped.1);
            assert(post.2 == pre.2 + stepped.2);
            assert(s@ =~= seq!['\''] + post.1);
            assert(d@ =~= seq!['"'] + post.2);
        }
        i = i + 1;
    }
    proof {
        assert(input@.take(n as int) =~= input@);
    }
    match mode {
        QuoteMode::Undecided => {
            string_push(&mut s, '\'');
            proof {
                assert(s@ =~= php_quote(input@));
            }
            s
        },
        QuoteMode::UndecidedEscape => {
            string_push(&mut s, '\\');
            string_push(&mut s, '\\');
            string_push(&mut s, '\'');
            proof {
                assert(s@ =~= php_quote(input@));
            }
            s
        },
        QuoteMode::Decided => {
            string_push(&mut d, '"');
            proof {
                assert(d@ =~= php_quote(input@));
            }
            d
        },
    }
}

/// The key part of a serialized pair: the quoted key and the assignment
/// arrow, or nothing for an unkeyed element.
pub open spec fn key_prefix_text(k: Option<Seq<char>>) -> Seq<char> {
    match k {
        Option::None => Seq::empty(),
        Option::Some(s) => php_quote(s) + seq![' ', '=', '>', ' '],
    }
}

impl KeyValuePair {
    /// Applies the key prefix, if any: the quoted key and the assignment
    /// arrow for a keyed pair, nothing for a positional element.
    pub fn key_prefix(&self) -> (r: String)
        ensures
            r@ == key_prefix_text(key_model(self.key)),
    {
        match &self.key {
            Option::Some(key) => {
                let mut buf = php_str(key.as_str());
                buf.append(" => ");
                proof {
                    reveal_strlit(" => ");
                    assert(" => "@ =~= seq![' ', '=', '>', ' ']);
                    assert(buf@ =~= php_quote(key@) + seq![' ', '=', '>', ' ']);
                }
                buf
            },
            Option::None => String::new(),
        }
    }
}

} // verus!
