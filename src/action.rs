//! The action language: `X+Y` (process `X` forks child `Y`) and `X-`
//! (process `X` exits), where `X` and `Y` are non-empty runs of word
//! characters. Parsing checks syntax only; whether the processes exist is
//! decided when the action is applied.

use vstd::prelude::*;

verus! {

/// A parsed action.
#[derive(Clone, Debug, PartialEq, Eq)]
pub enum Action {
    /// `parent+child`.
    Fork { parent: String, child: String },
    /// `process-`.
    Exit { process: String },
}

/// The mathematical value of an [`Action`].
pub enum ActionModel {
    Fork(Seq<char>, Seq<char>),
    Exit(Seq<char>),
}

impl View for Action {
    type V = ActionModel;

    open spec fn view(&self) -> ActionModel {
        match self {
            Action::Fork { parent, child } => ActionModel::Fork(parent@, child@),
            Action::Exit { process } => ActionModel::Exit(process@),
        }
    }
}

impl Action {
    /// A copy of the action.
    pub fn duplicate(&self) -> (r: Action)
        ensures
            r@ == self@,
    {
        match self {
            Action::Fork { parent, child } => Action::Fork {
                parent: parent.clone(),
                child: child.clone(),
            },
            Action::Exit { process } => Action::Exit { process: process.clone() },
        }
    }
}

/// The text does not follow the action grammar.
#[derive(Clone, Copy, Debug, PartialEq, Eq, Structural)]
pub struct MalformedAction;

/// A word character: an ASCII letter or digit, or `_`.
pub open spec fn is_word_char(c: char) -> bool {
    ('a' <= c && c <= 'z') || ('A' <= c && c <= 'Z') || ('0' <= c && c <= '9') || c == '_'
}

/// A non-empty run of word characters.
pub open spec fn is_token(s: Seq<char>) -> bool {
    s.len() > 0 && forall|i: int| 0 <= i < s.len() ==> is_word_char(#[trigger] s[i])
}

/// The text of an action.
pub open spec fn action_text(a: ActionModel) -> Seq<char> {
    match a {
        ActionModel::Fork(x, y) => x + seq!['+'] + y,
        ActionModel::Exit(x) => x.push('-'),
    }
}

/// The operands of `a` are tokens.
pub open spec fn well_formed(a: ActionModel) -> bool {
    match a {
        ActionModel::Fork(x, y) => is_token(x) && is_token(y),
        ActionModel::Exit(x) => is_token(x),
    }
}

/// `s` is the text of well-formed action `a`.
pub open spec fn parses_to(s: Seq<char>, a: ActionModel) -> bool {
    well_formed(a) && action_text(a) == s
}

/// A text is the text of at most one well-formed action, so parsing it
/// again gives the same action.
pub proof fn lemma_parse_unique(s: Seq<char>, a: ActionModel, b: ActionModel)
    requires
        parses_to(s, a),
        parses_to(s, b),
    ensures
        a == b,
{
    assert(!is_word_char('+') && !is_word_char('-'));
    match (a, b) {
        (ActionModel::Fork(x1, y1), ActionModel::Fork(x2, y2)) => {
            if x1.len() < x2.len() {
                assert(s[x1.len() as int] == '+');
                assert(x2[x1.len() as int] == s[x1.len() as int]);
            } else if x2.len() < x1.len() {
                assert(s[x2.len() as int] == '+');
                assert(x1[x2.len() as int] == s[x2.len() as int]);
            } else {
                assert(x1 =~= s.take(x1.len() as int));
                assert(x2 =~= s.take(x2.len() as int));
                assert(y1 =~= s.skip(x1.len() as int + 1));
                assert(y2 =~= s.skip(x2.len() as int + 1));
            }
        },
        (ActionModel::Fork(x1, y1), ActionModel::Exit(x2)) => {
            assert(s[s.len() - 1] == '-');
            assert(y1[y1.len() - 1] == s[s.len() - 1]);
        },
        (ActionModel::Exit(x1), ActionModel::Fork(x2, y2)) => {
            assert(s[s.len() - 1] == '-');
            assert(y2[y2.len() - 1] == s[s.len() - 1]);
        },
        (ActionModel::Exit(x1), ActionModel::Exit(x2)) => {
            assert(x1 =~= s.drop_last());
            assert(x2 =~= s.drop_last());
        },
    }
}

fn is_word(c: char) -> (r: bool)
    ensures
        r == is_word_char(c),
{
    ('a' <= c && c <= 'z') || ('A' <= c && c <= 'Z') || ('0' <= c && c <= '9') || c == '_'
}

/// Whether the characters of `s` in `lo..hi` form a token.
fn token_between(s: &str, lo: usize, hi: usize) -> (r: bool)
    requires
        lo <= hi <= s@.len(),
    ensures
        r == is_token(s@.subrange(lo as int, hi as int)),
{
    if lo == hi {
        return false;
    }
    let mut i = lo;
    while i < hi
        invariant
            lo <= i <= hi <= s@.len(),
            forall|j: int| lo <= j < i ==> is_word_char(#[trigger] s@[j]),
        decreases hi - i,
    {
        if !is_word(s.get_char(i)) {
            assert(s@.subrange(lo as int, hi as int)[i - lo] == s@[i as int]);
            return false;
        }
        i += 1;
    }
    assert forall|j: int| 0 <= j < hi - lo implies is_word_char(
        #[trigger] s@.subrange(lo as int, hi as int)[j],
    ) by {
        assert(s@.subrange(lo as int, hi as int)[j] == s@[lo + j]);
    }
    true
}

/// Parses one action. Fails exactly when `text` is neither `X+Y` nor `X-`
/// with `X` and `Y` tokens.
pub fn parse_action(text: &str) -> (r: Result<Action, MalformedAction>)
    ensures
        r matches Ok(a) ==> parses_to(text@, a@),
        r is Err ==> forall|a: ActionModel| !parses_to(text@, a),
{
    let n = text.unicode_len();
    let ghost s = text@;
    assert(!is_word_char('+') && !is_word_char('-'));
    if n >= 2 && text.get_char(n - 1) == '-' && token_between(text, 0, n - 1) {
        let x = text.substring_char(0, n - 1);
        let a = Action::Exit { process: String::from_str(x) };
        assert(s =~= x@.push('-'));
        return Ok(a);
    }
    let mut k: usize = 0;
    while k < n
        invariant
            s == text@,
            n == s.len(),
            k <= n,
            forall|j: int| 0 <= j < k ==> s[j] != '+',
        ensures
            k <= n,
            forall|j: int| 0 <= j < k ==> s[j] != '+',
            k == n || s[k as int] == '+',
        decreases n - k,
    {
        if text.get_char(k) == '+' {
            break;
        }
        k += 1;
    }
    if k < n && token_between(text, 0, k) && token_between(text, k + 1, n) {
        let x = text.substring_char(0, k);
        let y = text.substring_char(k + 1, n);
        let a = Action::Fork { parent: String::from_str(x), child: String::from_str(y) };
        assert(s =~= x@ + seq!['+'] + y@);
        return Ok(a);
    }
    assert forall|a: ActionModel| !parses_to(s, a) by {
        if parses_to(s, a) {
            match a {
                ActionModel::Fork(x, y) => {
                    let m = x.len() as int;
                    assert(s[m] == '+');
                    assert forall|j: int| 0 <= j < m implies s[j] != '+' by {
                        assert(s[j] == x[j]);
                    }
                    assert(k == m);
                    assert(s.subrange(0, m) =~= x);
                    assert(s.subrange(m + 1, n as int) =~= y);
                },
                ActionModel::Exit(x) => {
                    assert(s.subrange(0, n - 1) =~= x);
                    assert(s[n - 1] == '-');
                },
            }
        }
    }
    Err(MalformedAction)
}

} // verus!
