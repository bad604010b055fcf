//! The nftables commands of a zero-downtime migration: while the old port
//! is handed over, a REDIRECT rule sends its traffic to the new port. Running
//! `nft` is the application's; the arguments and the reading of its errors
//! are decided here.
use vstd::prelude::*;
use crate::config::texts;
use crate::text::{chars_of, decimal, has_prefix_at, push_decimal};

verus! {

/// How long the REDIRECT rule stays, in seconds.
pub const REDIRECT_DURATION_SECS: u64 = 30;

fn push_word(args: &mut Vec<String>, w: &str)
    ensures
        texts(final(args)@) == texts(old(args)@).push(w@),
{
    args.push(w.to_owned());
    assert(texts(args@) =~= texts(old(args)@).push(w@));
}

fn push_string(args: &mut Vec<String>, w: String)
    ensures
        texts(final(args)@) == texts(old(args)@).push(w@),
{
    args.push(w);
    assert(texts(args@) =~= texts(old(args)@).push(w@));
}

/// `nft add table ip echotrap`.
pub fn add_table_args() -> (args: Vec<String>)
    ensures
        texts(args@) == seq!["add"@, "table"@, "ip"@, "echotrap"@],
{
    let mut a: Vec<String> = Vec::new();
    push_word(&mut a, "add");
    push_word(&mut a, "table");
    push_word(&mut a, "ip");
    push_word(&mut a, "echotrap");
    a
}

/// `nft add chain ip echotrap prerouting { type nat hook prerouting priority dstnat ; }`,
/// the chain description being one argument.
pub fn add_chain_args() -> (args: Vec<String>)
    ensures
        texts(args@) == seq!["add"@, "chain"@, "ip"@, "echotrap"@, "prerouting"@,
            "{ type nat hook prerouting priority dstnat ; }"@],
{
    let mut a: Vec<String> = Vec::new();
    push_word(&mut a, "add");
    push_word(&mut a, "chain");
    push_word(&mut a, "ip");
    push_word(&mut a, "echotrap");
    push_word(&mut a, "prerouting");
    push_word(&mut a, "{ type nat hook prerouting priority dstnat ; }");
    a
}

/// `nft add rule ip echotrap prerouting tcp dport <from> redirect to :<to>`.
pub fn add_rule_args(from_port: u16, to_port: u16) -> (args: Vec<String>)
    ensures
        texts(args@) == seq!["add"@, "rule"@, "ip"@, "echotrap"@, "prerouting"@, "tcp"@, "dport"@,
            decimal(from_port as nat), "redirect"@, "to"@, seq![':'] + decimal(to_port as nat)],
{
    let mut a: Vec<String> = Vec::new();
    push_word(&mut a, "add");
    push_word(&mut a, "rule");
    push_word(&mut a, "ip");
    push_word(&mut a, "echotrap");
    push_word(&mut a, "prerouting");
    push_word(&mut a, "tcp");
    push_word(&mut a, "dport");
    let mut from = String::new();
    push_decimal(&mut from, from_port as u64);
    assert(from@ =~= decimal(from_port as nat));
    push_string(&mut a, from);
    push_word(&mut a, "redirect");
    push_word(&mut a, "to");
    let mut to = String::new();
    to.push(':');
    push_decimal(&mut to, to_port as u64);
    push_string(&mut a, to);
    a
}

/// `nft flush table ip echotrap`, which removes every redirect rule.
pub fn flush_table_args() -> (args: Vec<String>)
    ensures
        texts(args@) == seq!["flush"@, "table"@, "ip"@, "echotrap"@],
{
    let mut a: Vec<String> = Vec::new();
    push_word(&mut a, "flush");
    push_word(&mut a, "table");
    push_word(&mut a, "ip");
    push_word(&mut a, "echotrap");
    a
}

/// `pat` occurs in `s`.
pub open spec fn contains_text(s: Seq<char>, pat: Seq<char>) -> bool {
    exists|i: int| 0 <= i && i + pat.len() <= s.len() && #[trigger] s.subrange(i, i + pat.len()) == pat
}

fn contains_chars(s: &[char], pat: &[char]) -> (b: bool)
    ensures
        b == contains_text(s@, pat@),
{
    let n = s.len();
    let mut i: usize = 0;
    loop
        invariant
            n == s@.len(),
            i <= n,
            forall|k: int| 0 <= k < i && k + pat@.len() <= s@.len() ==> #[trigger] s@.subrange(k, k + pat@.len()) != pat@,
        decreases n - i,
    {
        if has_prefix_at(s, i, pat) {
            return true;
        }
        if i == n {
            return false;
        }
        i = i + 1;
    }
}

/// Whether a failed `nft` command only reports that the table or chain
/// already exists (its error output contains "File exists" or
/// "already exists"), which counts as success.
pub fn nft_failure_is_benign(stderr: &str) -> (ok: bool)
    ensures
        ok == (contains_text(stderr@, "File exists"@) || contains_text(stderr@, "already exists"@)),
{
    let s = chars_of(stderr);
    let p1 = chars_of("File exists");
    let p2 = chars_of("already exists");
    contains_chars(&s, &p1) || contains_chars(&s, &p2)
}


/// Whether one `nft` command did its part: it succeeded, or it failed only
/// because what it adds is already there.
pub fn nft_command_ok(succeeded: bool, stderr: &str) -> (ok: bool)
    ensures
        ok == (succeeded || contains_text(stderr@, "File exists"@) || contains_text(stderr@, "already exists"@)),
{
    succeeded || nft_failure_is_benign(stderr)
}

/// What setting up a redirect does next.
#[derive(Debug)]
pub enum RedirectAction {
    /// Run `nft` with these arguments.
    Command(Vec<String>),
    /// Every command has run: the redirect is active.
    Active,
    /// `nft` is missing or a command failed: serve the old port with the
    /// decoy instead.
    Decoy,
}

/// The next step of setting up a redirect from `from_port` to `to_port`,
/// given whether `nft` is available, how many commands have run and
/// whether the last one failed: without `nft`, or after a failure, the
/// decoy takes over; otherwise the table, the chain and the rule are added
/// in that order, and then the redirect is active.
pub fn redirect_action(from_port: u16, to_port: u16, nft_available: bool, done: usize, failed: bool) -> (a: RedirectAction)
    ensures
        !nft_available || failed ==> a is Decoy,
        nft_available && !failed && done == 0 ==> (a matches RedirectAction::Command(args)
            && texts(args@) == seq!["add"@, "table"@, "ip"@, "echotrap"@]),
        nft_available && !failed && done == 1 ==> (a matches RedirectAction::Command(args)
            && texts(args@) == seq!["add"@, "chain"@, "ip"@, "echotrap"@, "prerouting"@,
                "{ type nat hook prerouting priority dstnat ; }"@]),
        nft_available && !failed && done == 2 ==> (a matches RedirectAction::Command(args)
            && texts(args@) == seq!["add"@, "rule"@, "ip"@, "echotrap"@, "prerouting"@, "tcp"@, "dport"@,
                decimal(from_port as nat), "redirect"@, "to"@, seq![':'] + decimal(to_port as nat)]),
        nft_available && !failed && done >= 3 ==> a is Active,
{
    if !nft_available || failed {
        RedirectAction::Decoy
    } else if done == 0 {
        RedirectAction::Command(add_table_args())
    } else if done == 1 {
        RedirectAction::Command(add_chain_args())
    } else if done == 2 {
        RedirectAction::Command(add_rule_args(from_port, to_port))
    } else {
        RedirectAction::Active
    }
}

} // verus!
