//! Permissions: the operations a user may be granted, their one-letter
//! codes as stored in the permission store, and a user's session.
use vstd::prelude::*;
use vstd::string::StringExecFns;
use vstd::string::StrSliceExecFns;
use crate::error::Error;

verus! {

/// An operation that a permission allows.
#[derive(Debug, Clone, Copy, PartialEq, Eq, Hash, Structural)]
pub enum Action {
    InitAuth,
    InitStorage,
    InitCounter,
    InitFee,
    RaftUpsert,
    RaftDelete,
    Get,
    Scan,
    Page,
    RaftPause,
    RaftFee,
}

/// Every action, in declaration order.
pub open spec fn all_actions() -> Seq<Action> {
    seq![
        Action::InitAuth,
        Action::InitStorage,
        Action::InitCounter,
        Action::InitFee,
        Action::RaftUpsert,
        Action::RaftDelete,
        Action::Get,
        Action::Scan,
        Action::Page,
        Action::RaftPause,
        Action::RaftFee,
    ]
}

/// The letter that stands for an action in the permission store.
pub open spec fn action_letter(a: Action) -> char {
    match a {
        Action::InitAuth => 'A',
        Action::InitStorage => 'S',
        Action::InitCounter => 'C',
        Action::InitFee => 'F',
        Action::RaftUpsert => 'W',
        Action::RaftDelete => 'D',
        Action::Get => 'R',
        Action::Scan => 'N',
        Action::Page => 'P',
        Action::RaftPause => 'M',
        Action::RaftFee => 'E',
    }
}

/// The action a letter stands for, if any.
pub open spec fn letter_action(c: char) -> Option<Action> {
    if c == 'A' {
        Some(Action::InitAuth)
    } else if c == 'S' {
        Some(Action::InitStorage)
    } else if c == 'C' {
        Some(Action::InitCounter)
    } else if c == 'F' {
        Some(Action::InitFee)
    } else if c == 'W' {
        Some(Action::RaftUpsert)
    } else if c == 'D' {
        Some(Action::RaftDelete)
    } else if c == 'R' {
        Some(Action::Get)
    } else if c == 'N' {
        Some(Action::Scan)
    } else if c == 'P' {
        Some(Action::Page)
    } else if c == 'M' {
        Some(Action::RaftPause)
    } else if c == 'E' {
        Some(Action::RaftFee)
    } else {
        None
    }
}

/// The action a permission code stands for: a single letter.
pub open spec fn code_action(s: Seq<char>) -> Option<Action> {
    if s.len() == 1 {
        letter_action(s[0])
    } else {
        None
    }
}

/// The permission string of a list of actions: their letters, in order.
pub open spec fn actions_code(actions: Seq<Action>) -> Seq<char> {
    actions.map_values(|a: Action| action_letter(a))
}

/// Letters and actions correspond one to one.
pub proof fn lemma_letter_roundtrip(a: Action)
    ensures
        letter_action(action_letter(a)) == Some(a),
{
}

/// The actions of the administrator: all of them.
pub fn init() -> (r: Vec<Action>)
    ensures
        r@ == all_actions(),
{
    let mut init_action: Vec<Action> = Vec::new();
    init_action.push(Action::InitAuth);
    init_action.push(Action::InitStorage);
    init_action.push(Action::InitCounter);
    init_action.push(Action::InitFee);
    init_action.push(Action::RaftUpsert);
    init_action.push(Action::RaftDelete);
    init_action.push(Action::Get);
    init_action.push(Action::Scan);
    init_action.push(Action::Page);
    init_action.push(Action::RaftPause);
    init_action.push(Action::RaftFee);
    assert(init_action@ =~= all_actions());
    init_action
}

/// The one-letter code of an action.
pub fn action_to_char(action: Action) -> (r: Result<&'static str, Error>)
    ensures
        r is Ok,
        r->Ok_0@ == seq![action_letter(action)],
{
    let perm_char = match action {
        Action::InitAuth => {
            proof {
                reveal_strlit("A");
            }
            "A"
        },
        Action::InitStorage => {
            proof {
                reveal_strlit("S");
            }
            "S"
        },
        Action::InitCounter => {
            proof {
                reveal_strlit("C");
            }
            "C"
        },
        Action::InitFee => {
            proof {
                reveal_strlit("F");
            }
            "F"
        },
        Action::RaftUpsert => {
            proof {
                reveal_strlit("W");
            }
            "W"
        },
        Action::RaftDelete => {
            proof {
                reveal_strlit("D");
            }
            "D"
        },
        Action::Get => {
            proof {
                reveal_strlit("R");
            }
            "R"
        },
        Action::Scan => {
            proof {
                reveal_strlit("N");
            }
            "N"
        },
        Action::Page => {
            proof {
                reveal_strlit("P");
            }
            "P"
        },
        Action::RaftPause => {
            proof {
                reveal_strlit("M");
            }
            "M"
        },
        Action::RaftFee => {
            proof {
                reveal_strlit("E");
            }
            "E"
        },
    };
    Ok(perm_char)
}

/// The error of a permission code that names no action.
fn unsupported_character() -> (e: Error)
    ensures
        e is UnsupportedCharacter,
{
    Error::UnsupportedCharacter(String::from_str("Unsupported action character"))
}

/// The action of a one-letter permission code.
pub fn char_to_action(ch: &str) -> (r: Result<Action, Error>)
    ensures
        match code_action(ch@) {
            Some(a) => r == Ok::<Action, Error>(a),
            None => r is Err && r->Err_0 is UnsupportedCharacter,
        },
{
    if ch.unicode_len() != 1 {
        return Err(unsupported_character());
    }
    let c = ch.get_char(0);
    let perm_action = if c == 'A' {
        Action::InitAuth
    } else if c == 'S' {
        Action::InitStorage
    } else if c == 'C' {
        Action::InitCounter
    } else if c == 'F' {
        Action::InitFee
    } else if c == 'W' {
        Action::RaftUpsert
    } else if c == 'D' {
        Action::RaftDelete
    } else if c == 'R' {
        Action::Get
    } else if c == 'N' {
        Action::Scan
    } else if c == 'P' {
        Action::Page
    } else if c == 'M' {
        Action::RaftPause
    } else if c == 'E' {
        Action::RaftFee
    } else {
        return Err(unsupported_character());
    };
    Ok(perm_action)
}

/// The actions a permission string names, one letter per action, as the
/// permission store keeps them; nothing when a character names no action.
pub open spec fn letters_actions(s: Seq<char>) -> Option<Seq<Action>> {
    if forall|i: int| 0 <= i < s.len() ==> (#[trigger] letter_action(s[i])) is Some {
        Some(s.map_values(|c: char| letter_action(c)->Some_0))
    } else {
        None
    }
}

/// A permission string written for a list of actions reads back as that
/// list.
pub proof fn law_code_reads_back(actions: Seq<Action>)
    ensures
        letters_actions(actions_code(actions)) == Some(actions),
{
    let s = actions_code(actions);
    assert forall|i: int| 0 <= i < s.len() implies (#[trigger] letter_action(s[i])) is Some by {
        lemma_letter_roundtrip(actions[i]);
    }
    assert forall|i: int| 0 <= i < s.len() implies s.map_values(|c: char| letter_action(c)->Some_0)[i] == actions[i] by {
        lemma_letter_roundtrip(actions[i]);
    }
    assert(s.map_values(|c: char| letter_action(c)->Some_0) =~= actions);
}

/// The actions of a permission string, one letter per action, as the
/// store writes them; an error when a character names no action.
pub fn split_char(str: &str) -> (r: Result<Vec<Action>, Error>)
    ensures
        match letters_actions(str@) {
            Some(a) => r is Ok && r->Ok_0@ == a,
            None => r is Err && r->Err_0 is UnsupportedCharacter,
        },
{
    let n = str.unicode_len();
    let mut actions: Vec<Action> = Vec::new();
    let mut i: usize = 0;
    while i < n
        invariant
            n == str@.len(),
            i <= n,
            actions@.len() == i,
            forall|j: int| 0 <= j < i ==> (#[trigger] letter_action(str@[j])) == Some(actions@[j]),
        decreases n - i,
    {
        let piece = str.substring_char(i, i + 1);
        proof {
            assert(piece@ =~= seq![str@[i as int]]);
        }
        match char_to_action(piece) {
            Ok(action) => {
                actions.push(action);
            },
            Err(e) => {
                assert(letter_action(str@[i as int]) is None);
                assert(letters_actions(str@) is None);
                return Err(e);
            },
        }
        i = i + 1;
    }
    assert(actions@ =~= str@.map_values(|c: char| letter_action(c)->Some_0));
    Ok(actions)
}

/// A user's session: whether the user is logged in and what the user may do.
#[derive(Debug, Clone)]
pub struct UserSession {
    pub is_logged_in: bool,
    pub permissions: Vec<Action>,
}

} // verus!
