//! Requested modifications and the run's flags, plus the parser for the
//! action mini-language: `-host` removes a hostname, `address=host` defines
//! a mapping exclusively, `address+=host` defines one additively.
use vstd::prelude::*;

use crate::ip::{ip_of_chars, IpAddress};
use crate::parse::{alias_run_len, chars_of_str, ip_run_len};

verus! {

/// One requested modification.
#[derive(Debug)]
pub enum Action {
    /// Remove the hostname everywhere; entries left without hostnames
    /// disappear.
    Remove(String),
    /// Add a mapping; fails if the hostname already has an address of the
    /// same family elsewhere.
    Define(IpAddress, String),
    /// Replace every mapping of the hostname with exactly this one.
    DefineExclusive(IpAddress, String),
}

/// The model of an action.
pub enum ActionView {
    Remove(Seq<char>),
    Define(IpAddress, Seq<char>),
    DefineExclusive(IpAddress, Seq<char>),
}

impl View for Action {
    type V = ActionView;

    open spec fn view(&self) -> ActionView {
        match self {
            Action::Remove(h) => ActionView::Remove(h@),
            Action::Define(ip, h) => ActionView::Define(*ip, h@),
            Action::DefineExclusive(ip, h) => ActionView::DefineExclusive(*ip, h@),
        }
    }
}

/// Views of a sequence of actions.
pub open spec fn action_views(acts: Seq<Action>) -> Seq<ActionView> {
    acts.map_values(|a: Action| a@)
}

impl PartialEq for Action {
    /// Structural equality of the actions' models.
    fn eq(&self, other: &Action) -> (r: bool) {
        match (self, other) {
            (Action::Remove(h1), Action::Remove(h2)) => h1.eq(h2),
            (Action::Define(ip1, h1), Action::Define(ip2, h2)) => *ip1 == *ip2 && h1.eq(h2),
            (Action::DefineExclusive(ip1, h1), Action::DefineExclusive(ip2, h2)) => *ip1 == *ip2
                && h1.eq(h2),
            _ => false,
        }
    }
}

impl vstd::std_specs::cmp::PartialEqSpecImpl for Action {
    open spec fn obeys_eq_spec() -> bool {
        true
    }

    open spec fn eq_spec(&self, other: &Action) -> bool {
        self@ == other@
    }
}

/// The run's inputs: flags and the ordered batch of actions.
#[derive(Debug)]
pub struct HostsArgs {
    /// Make no change; only report what would have changed.
    pub dry_run: bool,
    /// Report the generated text.
    pub verbose: bool,
    /// Emit a sample configuration instead of running.
    pub generate_sample_config: bool,
    /// The modifications, applied in order.
    pub actions: Vec<Action>,
}

/// The action mini-language: `-` and a hostname; or an address literal
/// followed by `+=` or `=` and a hostname; each consuming the whole text.
pub open spec fn parse_action(s: Seq<char>) -> Option<ActionView> {
    if s.len() >= 1 && s[0] == '-' {
        let n = alias_run_len(s, 1);
        if n >= 1 && 1 + n == s.len() {
            Some(ActionView::Remove(s.subrange(1, s.len() as int)))
        } else {
            None
        }
    } else {
        let n = ip_run_len(s, 0);
        if n == 0 {
            None
        } else {
            match ip_of_chars(s.subrange(0, n)) {
                None => None,
                Some(ip) => {
                    if n + 1 < s.len() && s[n] == '+' && s[n + 1] == '=' {
                        let m = alias_run_len(s, n + 2);
                        if m >= 1 && n + 2 + m == s.len() {
                            Some(ActionView::Define(ip, s.subrange(n + 2, s.len() as int)))
                        } else {
                            None
                        }
                    } else if n < s.len() && s[n] == '=' {
                        let m = alias_run_len(s, n + 1);
                        if m >= 1 && n + 1 + m == s.len() {
                            Some(ActionView::DefineExclusive(ip, s.subrange(n + 1, s.len() as int)))
                        } else {
                            None
                        }
                    } else {
                        None
                    }
                },
            }
        }
    }
}

/// Parses one action, consuming the whole text.
pub fn comb_action(input: &str) -> (r: Option<Action>)
    ensures
        r is Some ==> parse_action(input@) == Some(r->Some_0@),
        r is None ==> parse_action(input@) is None,
{
    let t = chars_of_str(input);
    exec_parse_action(&t)
}

fn exec_parse_action(t: &Vec<char>) -> (r: Option<Action>)
    ensures
        r is Some ==> parse_action(t@) == Some(r->Some_0@),
        r is None ==> parse_action(t@) is None,
{
    let tlen = t.len();
    if t.len() >= 1 && t[0] == '-' {
        proof {
            crate::parse::lemma_alias_run_props(t@, 1);
        }
        let n = crate::parse::exec_alias_run_len(t, 1);
        if n >= 1 && 1 + n == t.len() {
            Some(Action::Remove(crate::parse::string_of_range(t, 1, tlen)))
        } else {
            None
        }
    } else {
        proof {
            crate::parse::lemma_ip_run_props(t@, 0);
        }
        let n = crate::parse::exec_ip_run_len(t, 0);
        if n == 0 {
            return None;
        }
        let token = crate::parse::vec_of_range(t, 0, n);
        match crate::ip::parse_ip_address(&token) {
            None => None,
            Some(ip) => {
                if n < t.len() && n + 1 < t.len() && t[n] == '+' && t[n + 1] == '=' {
                    let m = crate::parse::exec_alias_run_len(t, n + 2);
                    if m >= 1 && n + 2 + m == t.len() {
                        Some(Action::Define(ip, crate::parse::string_of_range(t, n + 2, tlen)))
                    } else {
                        None
                    }
                } else if n < t.len() && t[n] == '=' {
                    let m = crate::parse::exec_alias_run_len(t, n + 1);
                    if m >= 1 && n + 1 + m == t.len() {
                        Some(Action::DefineExclusive(ip, crate::parse::string_of_range(t, n + 1, tlen)))
                    } else {
                        None
                    }
                } else {
                    None
                }
            },
        }
    }
}

/// Parses one action, or reports the text that failed to parse.
pub fn try_parse_action(str_action: &str) -> (r: Option<Action>)
    ensures
        r is Some ==> parse_action(str_action@) == Some(r->Some_0@),
        r is None ==> parse_action(str_action@) is None,
{
    comb_action(str_action)
}

} // verus!
