//! The blocklist: the domains of a published list, with the domains that the
//! user added or removed by hand laid over it.

use std::time::Instant;

use vstd::hash_set::StringHashSet;
use vstd::prelude::*;
use vstd::string::*;

use crate::domain_set::{names, DomainSet};
use crate::list_text::{
    lemma_text_lines_are_lines, lemma_whole_line_listed, line_at, lemma_listed_push, lemma_text_lines_concat, lemma_text_lines_one_terminated,
    lemma_text_lines_unterminated, listed_domains, strip_cr, text_lines,
};
use crate::text::{lemma_push_contains, push_char};

verus! {

#[verifier::external_type_specification]
#[verifier::external_body]
pub struct ExInstant(Instant);

/// Reads the monotonic clock with `std::time::Instant::now`.
///
/// Trusted, and nothing is stated of the result: it is the time of the call.
#[verifier::external_body]
fn instant_now() -> Instant {
    Instant::now()
}

/// The list that a new blocklist is fetched from.
pub const DEFAULT_URL: &'static str =
    "https://raw.githubusercontent.com/hagezi/dns-blocklists/main/wildcard/pro-onlydomains.txt";

/// Seconds between two fetches of the list when nothing else is configured.
pub const DEFAULT_UPDATE_FREQ: u64 = 86400;

/// Seconds to wait before trying again after a fetch failed.
pub const RETRY_DELAY: u64 = 60;

/// The domains a list with text `text` blocks, with the user's overrides
/// applied: listed or added by hand, and not removed by hand.
pub open spec fn effective_domains(
    text: Seq<char>,
    added: Set<Seq<char>>,
    removed: Set<Seq<char>>,
) -> Set<Seq<char>> {
    listed_domains(text_lines(text)).union(added).difference(removed)
}

/// The domains that are blocked, and the settings that go with them.
pub struct Blocklist {
    /// Seconds between two fetches of the list.
    pub update_freq: u64,
    /// When the list was last fetched.
    pub last_update: Instant,
    /// The domains that are blocked.
    pub domains: StringHashSet,
    /// Domains blocked by hand, whatever the list says.
    pub user_added: DomainSet,
    /// Domains let through by hand, whatever the list says.
    pub user_removed: DomainSet,
    /// Where the list is fetched from.
    pub url: String,
}

impl Blocklist {
    /// A blocklist with nothing blocked yet, no overrides, a fetch every day
    /// and the default list.
    pub fn new() -> (b: Self)
        ensures
            b.update_freq == DEFAULT_UPDATE_FREQ,
            b.domains@ == Set::<Seq<char>>::empty(),
            b.user_added@ == Set::<Seq<char>>::empty(),
            b.user_removed@ == Set::<Seq<char>>::empty(),
            b.url@ == DEFAULT_URL@,
    {
        Blocklist {
            update_freq: DEFAULT_UPDATE_FREQ,
            last_update: instant_now(),
            domains: StringHashSet::new(),
            user_added: DomainSet::new(),
            user_removed: DomainSet::new(),
            url: String::from_str(DEFAULT_URL),
        }
    }

    /// Whether `domain` is blocked.
    pub fn check(&self, domain: &str) -> (blocked: bool)
        ensures
            blocked == self.domains@.contains(domain@),
    {
        self.domains.contains(domain)
    }
}

/// The set of names held by a slice of strings.
pub open spec fn name_set(items: Seq<String>) -> Set<Seq<char>> {
    Set::new(|d: Seq<char>| names(items).contains(d))
}

/// Inserts every name of `items` into `set`.
fn insert_all(set: &mut StringHashSet, items: &[String])
    ensures
        final(set)@ == old(set)@.union(name_set(items@)),
{
    let mut i: usize = 0;
    while i < items.len()
        invariant
            i <= items@.len(),
            set@ == old(set)@.union(name_set(items@.take(i as int))),
        decreases items@.len() - i,
    {
        let ghost prev = names(items@.take(i as int));
        set.insert(items[i].clone());
        assert(names(items@.take(i + 1)) =~= prev.push(items@[i as int]@));
        proof {
            lemma_push_contains(prev, items@[i as int]@);
        }
        i = i + 1;
        assert(set@ =~= old(set)@.union(name_set(items@.take(i as int))));
    }
    assert(items@.take(items@.len() as int) =~= items@);
}

/// Removes every name of `items` from `set`.
fn remove_all(set: &mut StringHashSet, items: &[String])
    ensures
        final(set)@ == old(set)@.difference(name_set(items@)),
{
    let mut i: usize = 0;
    while i < items.len()
        invariant
            i <= items@.len(),
            set@ == old(set)@.difference(name_set(items@.take(i as int))),
        decreases items@.len() - i,
    {
        let ghost prev = names(items@.take(i as int));
        set.remove(items[i].as_str());
        assert(names(items@.take(i + 1)) =~= prev.push(items@[i as int]@));
        proof {
            lemma_push_contains(prev, items@[i as int]@);
        }
        i = i + 1;
        assert(set@ =~= old(set)@.difference(name_set(items@.take(i as int))));
    }
    assert(items@.take(items@.len() as int) =~= items@);
}

/// Inserts into `set` the domains that the list text `text` names.
fn insert_listed(set: &mut StringHashSet, text: &str)
    ensures
        final(set)@ == old(set)@.union(listed_domains(text_lines(text@))),
{
    let ghost s = text@;
    let mut line = String::new();
    let mut has_hash = false;
    let mut pending_cr = false;
    let mut in_line = false;
    let ghost mut k: int = 0;
    proof {
        assert(s.take(0) =~= Seq::<char>::empty());
        assert(text_lines(s.take(0)) =~= Seq::<Seq<char>>::empty());
        assert(listed_domains(Seq::<Seq<char>>::empty()) =~= Set::<Seq<char>>::empty());
        assert(s.subrange(0, 0) =~= line@);
    }
    for c in it: text.chars()
        invariant
            s == text@,
            it.seq() == s,
            0 <= k <= it.index() <= s.len(),
            k == 0 || s[k - 1] == '\n',
            forall|i: int| k <= i < it.index() ==> s[i] != '\n',
            s.subrange(k, it.index() as int) == (if pending_cr {
                line@.push('\r')
            } else {
                line@
            }),
            !pending_cr ==> line@.len() == 0 || line@.last() != '\r',
            has_hash == line@.contains('#'),
            in_line == (k < it.index()),
            set@ == old(set)@.union(listed_domains(text_lines(s.take(k)))),
    {
        let ghost p = it.index() as int;
        if c == '\n' {
            proof {
                let t = s.subrange(k, p + 1);
                assert(t.take(t.len() - 1) =~= s.subrange(k, p));
                assert forall|i: int| 0 <= i < t.len() - 1 implies t[i] != '\n' by {
                    assert(t[i] == s[k + i]);
                }
                lemma_text_lines_one_terminated(t);
                lemma_text_lines_concat(s.take(k), t);
                assert(s.take(k) + t =~= s.take(p + 1));
                assert(strip_cr(s.subrange(k, p)) == line@) by {
                    if pending_cr {
                        assert(line@.push('\r').drop_last() =~= line@);
                    }
                }
                lemma_listed_push(text_lines(s.take(k)), line@);
                assert(text_lines(s.take(k)) + seq![line@] =~= text_lines(s.take(k)).push(line@));
            }
            if !has_hash {
                set.insert(line);
            }
            line = String::new();
            has_hash = false;
            pending_cr = false;
            in_line = false;
            proof {
                k = p + 1;
                assert(s.subrange(k, k) =~= line@);
            }
        } else {
            let ghost before = line@;
            if pending_cr {
                push_char(&mut line, '\r');
                proof {
                    lemma_push_contains(before, '\r');
                }
            }
            let ghost mid = line@;
            if c == '\r' {
                pending_cr = true;
            } else {
                push_char(&mut line, c);
                proof {
                    lemma_push_contains(mid, c);
                }
                if c == '#' {
                    has_hash = true;
                }
                pending_cr = false;
            }
            in_line = true;
            proof {
                assert(s.subrange(k, p + 1) =~= s.subrange(k, p).push(c));
                assert(s.subrange(k, p + 1) =~= (if pending_cr {
                    line@.push('\r')
                } else {
                    line@
                }));
            }
        }
    }
    proof {
        let t = s.skip(k);
        assert(s.take(k) + t =~= s);
        lemma_text_lines_concat(s.take(k), t);
        assert(t =~= s.subrange(k, s.len() as int));
        assert forall|i: int| 0 <= i < t.len() implies t[i] != '\n' by {
            assert(t[i] == s[k + i]);
        }
        lemma_text_lines_unterminated(t);
    }
    if in_line {
        let ghost before = line@;
        if pending_cr {
            push_char(&mut line, '\r');
            proof {
                lemma_push_contains(before, '\r');
            }
        }
        proof {
            lemma_listed_push(text_lines(s.take(k)), line@);
            assert(text_lines(s.take(k)) + seq![line@] =~= text_lines(s.take(k)).push(line@));
        }
        if !has_hash {
            set.insert(line);
        }
    } else {
        proof {
            assert(text_lines(s.take(k)) + Seq::<Seq<char>>::empty() =~= text_lines(s.take(k)));
        }
    }
}

impl Blocklist {
    /// Replaces the blocked domains by those of a freshly fetched list with
    /// text `text`, lays the user's overrides over them, and records the time
    /// of the update.
    pub fn update_from_text(&mut self, text: &str)
        ensures
            final(self).domains@ == effective_domains(
                text@,
                old(self).user_added@,
                old(self).user_removed@,
            ),
            final(self).update_freq == old(self).update_freq,
            final(self).user_added == old(self).user_added,
            final(self).user_removed == old(self).user_removed,
            final(self).url == old(self).url,
            final(self).override_state() == after_update(old(self).override_state(), text@),
    {
        self.domains.clear();
        insert_listed(&mut self.domains, text);
        let added = self.user_added.as_slice();
        insert_all(&mut self.domains, added);
        let removed = self.user_removed.as_slice();
        remove_all(&mut self.domains, removed);
        assert(name_set(added@) =~= self.user_added@);
        assert(name_set(removed@) =~= self.user_removed@);
        self.last_update = instant_now();
        assert(final(self).domains@ =~= effective_domains(text@, old(self).user_added@, old(self).user_removed@));
    }
}

impl Blocklist {
    /// A blocklist as a saved configuration describes it: the given fetch
    /// frequency and time of the last fetch, the overrides when present (none
    /// otherwise), and the given list address or else the default one. Nothing
    /// is blocked until the list is fetched.
    pub fn from_config(
        update_freq: u64,
        last_update: Instant,
        user_added: Option<Vec<String>>,
        user_removed: Option<Vec<String>>,
        url: Option<String>,
    ) -> (b: Self)
        ensures
            b.update_freq == update_freq,
            b.last_update == last_update,
            b.domains@ == Set::<Seq<char>>::empty(),
            b.user_added@ == (match user_added {
                Some(v) => name_set(v@),
                None => Set::<Seq<char>>::empty(),
            }),
            b.user_removed@ == (match user_removed {
                Some(v) => name_set(v@),
                None => Set::<Seq<char>>::empty(),
            }),
            b.url@ == (match url {
                Some(u) => u@,
                None => DEFAULT_URL@,
            }),
    {
        let added = match user_added {
            Some(v) => DomainSet::from_vec(v),
            None => DomainSet::new(),
        };
        let removed = match user_removed {
            Some(v) => DomainSet::from_vec(v),
            None => DomainSet::new(),
        };
        let url = match url {
            Some(u) => u,
            None => String::from_str(DEFAULT_URL),
        };
        let b = Blocklist {
            update_freq,
            last_update,
            domains: StringHashSet::new(),
            user_added: added,
            user_removed: removed,
            url,
        };
        assert(b.user_added@ =~= (match user_added {
            Some(v) => name_set(v@),
            None => Set::<Seq<char>>::empty(),
        }));
        assert(b.user_removed@ =~= (match user_removed {
            Some(v) => name_set(v@),
            None => Set::<Seq<char>>::empty(),
        }));
        b
    }

    /// Takes over the settings of a loaded configuration: fetch frequency,
    /// time of the last fetch, overrides and list address. The blocked
    /// domains stay as they are.
    pub fn apply_config(&mut self, loaded: Blocklist)
        ensures
            final(self).update_freq == loaded.update_freq,
            final(self).last_update == loaded.last_update,
            final(self).user_added == loaded.user_added,
            final(self).user_removed == loaded.user_removed,
            final(self).url == loaded.url,
            final(self).domains == old(self).domains,
    {
        self.update_freq = loaded.update_freq;
        self.last_update = loaded.last_update;
        self.user_added = loaded.user_added;
        self.user_removed = loaded.user_removed;
        self.url = loaded.url;
    }

    /// Blocks `domain` by hand: it is blocked now, stays blocked through
    /// later fetches of the list, and is no longer let through by hand.
    pub fn block_domain(&mut self, domain: String)
        ensures
            final(self).domains@ == old(self).domains@.insert(domain@),
            final(self).user_added@ == old(self).user_added@.insert(domain@),
            final(self).user_removed@ == old(self).user_removed@.remove(domain@),
            final(self).update_freq == old(self).update_freq,
            final(self).last_update == old(self).last_update,
            final(self).url == old(self).url,
    {
        self.domains.insert(domain.clone());
        self.user_removed.remove(domain.as_str());
        self.user_added.insert(domain);
    }

    /// Lets `domain` through by hand: it is not blocked now, stays unblocked
    /// through later fetches of the list, and is no longer blocked by hand.
    pub fn unblock_domain(&mut self, domain: String)
        ensures
            final(self).domains@ == old(self).domains@.remove(domain@),
            final(self).user_added@ == old(self).user_added@.remove(domain@),
            final(self).user_removed@ == old(self).user_removed@.insert(domain@),
            final(self).update_freq == old(self).update_freq,
            final(self).last_update == old(self).last_update,
            final(self).url == old(self).url,
    {
        self.domains.remove(domain.as_str());
        self.user_added.remove(domain.as_str());
        self.user_removed.insert(domain);
    }
}

/// Seconds to wait before the next fetch of the list: the configured
/// frequency after a successful fetch, a minute after a failed one.
pub fn next_update_delay(updated: bool, update_freq: u64) -> (secs: u64)
    ensures
        secs == if updated {
            update_freq
        } else {
            RETRY_DELAY
        },
{
    if updated {
        update_freq
    } else {
        RETRY_DELAY
    }
}

/// A domain blocked by hand is blocked whatever the fetched list says, and a
/// domain let through by hand is never blocked.
pub proof fn lemma_overrides_win(
    text: Seq<char>,
    added: Set<Seq<char>>,
    removed: Set<Seq<char>>,
    domain: Seq<char>,
)
    ensures
        added.contains(domain) && !removed.contains(domain) ==> effective_domains(
            text,
            added,
            removed,
        ).contains(domain),
        removed.contains(domain) ==> !effective_domains(text, added, removed).contains(domain),
        !added.contains(domain) && !removed.contains(domain) ==> (effective_domains(
            text,
            added,
            removed,
        ).contains(domain) <==> listed_domains(text_lines(text)).contains(domain)),
{
}

/// Blocking a domain by hand and then fetching any list leaves it blocked;
/// letting it through by hand and then fetching any list leaves it
/// unblocked.
pub proof fn lemma_overrides_survive_update(
    text: Seq<char>,
    added: Set<Seq<char>>,
    removed: Set<Seq<char>>,
    domain: Seq<char>,
)
    ensures
        effective_domains(text, added.insert(domain), removed.remove(domain)).contains(domain),
        !effective_domains(text, added.remove(domain), removed.insert(domain)).contains(domain),
{
}

/// Blocking and unblocking by hand keep the two override sets apart: no
/// domain is at once blocked and let through by hand.
pub proof fn lemma_overrides_stay_disjoint(
    added: Set<Seq<char>>,
    removed: Set<Seq<char>>,
    domain: Seq<char>,
)
    requires
        added.disjoint(removed),
    ensures
        added.insert(domain).disjoint(removed.remove(domain)),
        added.remove(domain).disjoint(removed.insert(domain)),
{
}

/// A line of the fetched list that holds `#` is never blocked unless it is
/// blocked by hand.
pub proof fn lemma_comment_lines_not_blocked(
    text: Seq<char>,
    added: Set<Seq<char>>,
    removed: Set<Seq<char>>,
    line: Seq<char>,
)
    requires
        line.contains('#'),
        !added.contains(line),
    ensures
        !effective_domains(text, added, removed).contains(line),
{
}

/// A domain blocked by hand is reported blocked at once, and a domain let
/// through by hand is reported unblocked at once, whatever was blocked
/// before.
pub proof fn lemma_override_takes_effect(domains: Set<Seq<char>>, domain: Seq<char>)
    ensures
        domains.insert(domain).contains(domain),
        !domains.remove(domain).contains(domain),
        forall|other: Seq<char>|
            other != domain ==> (domains.insert(domain).contains(other) <==> domains.contains(
                other,
            )) && (domains.remove(domain).contains(other) <==> domains.contains(other)),
{
}

/// The part of a blocklist that the overrides act on: what is blocked, what
/// is blocked by hand and what is let through by hand.
pub ghost struct OverrideState {
    pub domains: Set<Seq<char>>,
    pub added: Set<Seq<char>>,
    pub removed: Set<Seq<char>>,
}

/// The state after a fetch of a list with text `text`.
pub open spec fn after_update(s: OverrideState, text: Seq<char>) -> OverrideState {
    OverrideState {
        domains: effective_domains(text, s.added, s.removed),
        added: s.added,
        removed: s.removed,
    }
}

/// The state after fetches of the lists with texts `texts`, in turn.
pub open spec fn after_updates(s: OverrideState, texts: Seq<Seq<char>>) -> OverrideState
    decreases texts.len(),
{
    if texts.len() == 0 {
        s
    } else {
        after_update(after_updates(s, texts.drop_last()), texts.last())
    }
}

impl Blocklist {
    /// The sets the overrides act on.
    pub open spec fn override_state(&self) -> OverrideState {
        OverrideState {
            domains: self.domains@,
            added: self.user_added@,
            removed: self.user_removed@,
        }
    }
}

/// However many lists are fetched in turn, the overrides stay as they were,
/// a domain blocked by hand stays blocked and a domain let through by hand
/// stays unblocked.
pub proof fn lemma_overrides_survive_updates(
    s: OverrideState,
    texts: Seq<Seq<char>>,
    domain: Seq<char>,
)
    requires
        s.added.contains(domain) && !s.removed.contains(domain) ==> s.domains.contains(domain),
        s.removed.contains(domain) ==> !s.domains.contains(domain),
    ensures
        after_updates(s, texts).added == s.added,
        after_updates(s, texts).removed == s.removed,
        s.added.contains(domain) && !s.removed.contains(domain) ==> after_updates(
            s,
            texts,
        ).domains.contains(domain),
        s.removed.contains(domain) ==> !after_updates(s, texts).domains.contains(domain),
    decreases texts.len(),
{
    if texts.len() > 0 {
        lemma_overrides_survive_updates(s, texts.drop_last(), domain);
    }
}

/// After a fetch of a list with text `text`, a domain is blocked only if it
/// is not let through by hand and is either blocked by hand or stands in the
/// text as a whole line without `#`. With no overrides, every blocked domain
/// is such a line.
pub proof fn lemma_blocked_only_if_listed_or_added(
    text: Seq<char>,
    added: Set<Seq<char>>,
    removed: Set<Seq<char>>,
    domain: Seq<char>,
)
    ensures
        effective_domains(text, added, removed).contains(domain) ==> !removed.contains(domain)
            && (added.contains(domain) || (!domain.contains('#') && exists|k: int|
            line_at(text, domain, k))),
{
    if effective_domains(text, added, removed).contains(domain) && !added.contains(domain) {
        lemma_text_lines_are_lines(text, domain);
    }
}

/// A domain that stands in the fetched text as a whole line ended by a
/// newline, holds no `#` and does not end in a carriage return, is blocked
/// unless it is let through by hand.
pub proof fn lemma_listed_line_blocked(
    pre: Seq<char>,
    domain: Seq<char>,
    post: Seq<char>,
    added: Set<Seq<char>>,
    removed: Set<Seq<char>>,
)
    requires
        pre.len() == 0 || pre.last() == '\n',
        !domain.contains('\n'),
        !domain.contains('#'),
        domain.len() == 0 || domain.last() != '\r',
        !removed.contains(domain),
    ensures
        effective_domains(pre + domain + seq!['\n'] + post, added, removed).contains(domain),
{
    lemma_whole_line_listed(pre, domain, post);
}

} // verus!
