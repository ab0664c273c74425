//! The decisions behind the HTTP control interface: what a request to change
//! the overrides or the list sources does, and which embedded file a path
//! names.

use vstd::prelude::*;
use vstd::string::*;

use crate::blocklist::Blocklist;
use crate::domain_set::names;
use crate::text::{chars_less, push_char, str_equal};

verus! {

/// The HTTP control interface of the sinkhole.
pub struct Server;

/// What a request to change the overrides came to.
#[derive(Debug, Clone, Copy, PartialEq, Eq, Structural)]
pub enum OverrideOutcome {
    /// The domain is now blocked by hand.
    Added,
    /// The domain is now let through by hand.
    Removed,
    /// The action was neither `add` nor `remove`; nothing changed.
    InvalidAction,
}

/// A list that the blocklist can be fetched from.
#[derive(Debug)]
pub struct Source {
    pub url: String,
    pub enabled: bool,
}

/// What a request to change the list sources came to.
#[derive(Debug, Clone, Copy, PartialEq, Eq, Structural)]
pub enum SourceOutcome {
    /// A source with that address is already there; nothing changed.
    AlreadyExists,
    /// The source was added, enabled.
    Added,
    /// Every source with that address was removed.
    Removed,
    /// The first source with that address, if any, was switched.
    Toggled,
    /// The action was none of `add`, `remove` and `toggle`; nothing changed.
    InvalidAction,
}

/// The addresses of a sequence of sources.
pub open spec fn source_urls(sources: Seq<Source>) -> Seq<Seq<char>> {
    sources.map_values(|s: Source| s.url@)
}

/// The offset of the first source with address `url`, or the length of the
/// sequence if there is none.
pub open spec fn first_source(sources: Seq<Source>, url: Seq<char>) -> int
    decreases sources.len(),
{
    if sources.len() == 0 || sources[0].url@ == url {
        0
    } else {
        1 + first_source(sources.drop_first(), url)
    }
}

/// The sources without those at address `url`.
pub open spec fn without_url(sources: Seq<Source>, url: Seq<char>) -> Seq<Source> {
    sources.filter(|s: Source| s.url@ != url)
}

/// The sources after a toggle of the first one at address `url`: its
/// `enabled` set to `enabled` when given, else flipped.
pub open spec fn toggled(sources: Seq<Source>, url: Seq<char>, enabled: Option<bool>) -> Seq<
    Source,
> {
    let i = first_source(sources, url);
    if i < sources.len() {
        sources.update(
            i,
            Source {
                url: sources[i].url,
                enabled: match enabled {
                    Some(e) => e,
                    None => !sources[i].enabled,
                },
            },
        )
    } else {
        sources
    }
}

proof fn lemma_first_source(sources: Seq<Source>, url: Seq<char>)
    ensures
        0 <= first_source(sources, url) <= sources.len(),
        first_source(sources, url) < sources.len() ==> sources[first_source(sources, url)].url@
            == url,
        forall|j: int| 0 <= j < first_source(sources, url) ==> sources[j].url@ != url,
    decreases sources.len(),
{
    if sources.len() > 0 && sources[0].url@ != url {
        lemma_first_source(sources.drop_first(), url);
        assert forall|j: int| 0 <= j < first_source(sources, url) implies sources[j].url@
            != url by {
            if j > 0 {
                assert(sources[j] == sources.drop_first()[j - 1]);
            }
        }
    }
}

/// A path without the slashes that start it.
pub open spec fn trim_leading_slashes(path: Seq<char>) -> Seq<char>
    decreases path.len(),
{
    if path.len() > 0 && path[0] == '/' {
        trim_leading_slashes(path.drop_first())
    } else {
        path
    }
}

/// A path that starts with `k` slashes followed by something else, or the end,
/// loses exactly those slashes.
proof fn lemma_trim_leading_slashes(path: Seq<char>, k: int)
    requires
        0 <= k <= path.len(),
        forall|i: int| 0 <= i < k ==> path[i] == '/',
        k < path.len() ==> path[k] != '/',
    ensures
        trim_leading_slashes(path) == path.skip(k),
    decreases k,
{
    if k == 0 {
        assert(path.skip(0) =~= path);
    } else {
        let rest = path.drop_first();
        assert forall|i: int| 0 <= i < k - 1 implies rest[i] == '/' by {
            assert(rest[i] == path[i + 1]);
        }
        lemma_trim_leading_slashes(rest, k - 1);
        assert(rest.skip(k - 1) =~= path.skip(k));
    }
}

/// The MIME type that `mime_guess` gives a path by its extension.
pub uninterp spec fn spec_mime_type(path: Seq<char>) -> Seq<char>;

/// Guesses the MIME type of a path by its extension with
/// `mime_guess::from_path(..).first_or_octet_stream()`.
///
/// Trusted: the guess is a lookup of the extension in `mime_guess`'s table,
/// a function of the path alone; it is named, not stated.
#[verifier::external_body]
fn mime_type(path: &str) -> (m: String)
    ensures
        m@ == spec_mime_type(path@),
{
    mime_guess::from_path(path).first_or_octet_stream().as_ref().to_owned()
}

/// What the web interface sends for a path that no route takes.
#[derive(Debug, PartialEq, Eq)]
pub enum FrontendReply {
    /// The embedded file `name`, with its MIME type.
    Asset { name: String, mime: String },
    /// The embedded `index.html`.
    Index,
    /// Nothing is embedded that could answer.
    NotFound,
}

impl Server {
    /// The reply to a request for `uri_path`: the embedded file that the
    /// path names, without its leading slashes, when there is one; else the
    /// embedded `index.html` when there is one; else not found.
    /// `asset_exists` and `index_exists` say which of the two files are
    /// embedded.
    pub fn frontend_reply(uri_path: &str, asset_exists: bool, index_exists: bool) -> (r:
        FrontendReply)
        ensures
            asset_exists ==> (r matches FrontendReply::Asset { name, mime } && name@
                == trim_leading_slashes(uri_path@) && mime@ == spec_mime_type(
                trim_leading_slashes(uri_path@),
            )),
            !asset_exists && index_exists ==> r is Index,
            !asset_exists && !index_exists ==> r is NotFound,
    {
        if asset_exists {
            let name = Self::asset_path(uri_path);
            let mime = mime_type(name.as_str());
            FrontendReply::Asset { name, mime }
        } else if index_exists {
            FrontendReply::Index
        } else {
            FrontendReply::NotFound
        }
    }

    /// The domains blocked by hand and those let through by hand, each list
    /// in lexicographic order of code points.
    pub fn overrides(blocklist: &Blocklist) -> (res: (Vec<String>, Vec<String>))
        ensures
            forall|d: Seq<char>| names(res.0@).contains(d) <==> blocklist.user_added@.contains(d),
            forall|d: Seq<char>|
                names(res.1@).contains(d) <==> blocklist.user_removed@.contains(d),
            forall|i: int, j: int|
                0 <= i < j < res.0@.len() ==> chars_less(#[trigger] res.0@[i]@, #[trigger] res.0@[j]@),
            forall|i: int, j: int|
                0 <= i < j < res.1@.len() ==> chars_less(#[trigger] res.1@[i]@, #[trigger] res.1@[j]@),
    {
        (blocklist.user_added.sorted(), blocklist.user_removed.sorted())
    }

    /// The name of the embedded file that a request path asks for: the path
    /// without its leading slashes.
    pub fn asset_path(uri_path: &str) -> (name: String)
        ensures
            name@ == trim_leading_slashes(uri_path@),
    {
        let ghost s = uri_path@;
        let mut name = String::new();
        let mut started = false;
        let ghost mut k: int = 0;
        for c in it: uri_path.chars()
            invariant
                s == uri_path@,
                it.seq() == s,
                0 <= k <= it.index() <= s.len(),
                forall|i: int| 0 <= i < k ==> s[i] == '/',
                started ==> k < s.len() && s[k] != '/',
                !started ==> k == it.index(),
                name@ == s.subrange(k, it.index() as int),
        {
            if started || c != '/' {
                push_char(&mut name, c);
                proof {
                    if !started {
                        assert(s[k] == c);
                    }
                }
                started = true;
                assert(name@ =~= s.subrange(k, it.index() + 1));
            } else {
                proof {
                    k = k + 1;
                }
                assert(name@ =~= s.subrange(k, it.index() + 1));
            }
        }
        proof {
            lemma_trim_leading_slashes(s, k);
            assert(s.skip(k) =~= s.subrange(k, s.len() as int));
        }
        name
    }

    /// Applies an override request: `add` blocks `domain` by hand, `remove`
    /// lets it through by hand, any other action changes nothing.
    pub fn apply_override(blocklist: &mut Blocklist, domain: String, action: &str) -> (res:
        OverrideOutcome)
        ensures
            action@ == "add"@ ==> res == OverrideOutcome::Added && final(blocklist).domains@
                == old(blocklist).domains@.insert(domain@) && final(blocklist).user_added@
                == old(blocklist).user_added@.insert(domain@) && final(blocklist).user_removed@
                == old(blocklist).user_removed@.remove(domain@),
            action@ == "remove"@ ==> res == OverrideOutcome::Removed && final(blocklist).domains@
                == old(blocklist).domains@.remove(domain@) && final(blocklist).user_added@
                == old(blocklist).user_added@.remove(domain@) && final(blocklist).user_removed@
                == old(blocklist).user_removed@.insert(domain@),
            action@ != "add"@ && action@ != "remove"@ ==> res == OverrideOutcome::InvalidAction
                && *final(blocklist) == *old(blocklist),
            final(blocklist).update_freq == old(blocklist).update_freq,
            final(blocklist).url == old(blocklist).url,
            final(blocklist).last_update == old(blocklist).last_update,
    {
        proof {
            reveal_strlit("add");
            reveal_strlit("remove");
            assert("add"@.len() != "remove"@.len());
        }
        if str_equal(action, "add") {
            blocklist.block_domain(domain);
            OverrideOutcome::Added
        } else if str_equal(action, "remove") {
            blocklist.unblock_domain(domain);
            OverrideOutcome::Removed
        } else {
            OverrideOutcome::InvalidAction
        }
    }

    /// Whether a source at address `url` is in `sources`.
    fn has_source(sources: &Vec<Source>, url: &String) -> (res: bool)
        ensures
            res == source_urls(sources@).contains(url@),
    {
        let mut i: usize = 0;
        while i < sources.len()
            invariant
                i <= sources@.len(),
                forall|j: int| 0 <= j < i ==> sources@[j].url@ != url@,
            decreases sources@.len() - i,
        {
            if sources[i].url == *url {
                assert(source_urls(sources@)[i as int] == url@);
                return true;
            }
            i = i + 1;
        }
        assert forall|j: int| 0 <= j < source_urls(sources@).len() implies source_urls(
            sources@,
        )[j] != url@ by {}
        false
    }

    /// The sources without those at address `url`, in their order.
    fn remove_source(sources: Vec<Source>, url: &String) -> (res: Vec<Source>)
        ensures
            res@ == without_url(sources@, url@),
    {
        let ghost all = sources@;
        let mut rest = sources;
        let mut kept: Vec<Source> = Vec::new();
        let ghost mut i: int = 0;
        while rest.len() > 0
            invariant
                0 <= i <= all.len(),
                rest@ == all.skip(i),
                kept@ == all.take(i).filter(|s: Source| s.url@ != url@),
            decreases rest@.len(),
        {
            proof {
                reveal_with_fuel(Seq::<_>::filter, 1);
                assert(all.take(i + 1).drop_last() =~= all.take(i));
                assert(all.take(i + 1).last() == all[i]);
            }
            let s = rest.remove(0);
            if s.url != *url {
                kept.push(s);
            }
            proof {
                i = i + 1;
                assert(rest@ =~= all.skip(i));
            }
        }
        assert(all.take(all.len() as int) =~= all);
        kept
    }

    /// Switches the first source at address `url`, if there is one.
    fn toggle_source(sources: &mut Vec<Source>, url: &String, enabled: Option<bool>)
        ensures
            final(sources)@ == toggled(old(sources)@, url@, enabled),
    {
        proof {
            lemma_first_source(sources@, url@);
        }
        let mut i: usize = 0;
        while i < sources.len()
            invariant
                i <= sources@.len(),
                sources@ == old(sources)@,
                forall|j: int| 0 <= j < i ==> sources@[j].url@ != url@,
            decreases sources@.len() - i,
        {
            if sources[i].url == *url {
                proof {
                    lemma_first_source(sources@, url@);
                }
                assert(first_source(sources@, url@) == i);
                let e = match enabled {
                    Some(e) => e,
                    None => !sources[i].enabled,
                };
                let u = sources[i].url.clone();
                sources.set(i, Source { url: u, enabled: e });
                return;
            }
            i = i + 1;
        }
        proof {
            lemma_first_source(sources@, url@);
        }
        assert(first_source(sources@, url@) == sources@.len());
    }

    /// Applies a request on the list sources: `add` appends an enabled source
    /// unless one at that address is there; `remove` drops every source at
    /// that address; `toggle` sets the first one at that address to
    /// `enabled`, or flips it when `enabled` is absent; any other action
    /// changes nothing.
    pub fn apply_source_action(
        sources: &mut Vec<Source>,
        url: String,
        action: &str,
        enabled: Option<bool>,
    ) -> (res: SourceOutcome)
        ensures
            action@ == "add"@ ==> if source_urls(old(sources)@).contains(url@) {
                res == SourceOutcome::AlreadyExists && final(sources)@ == old(sources)@
            } else {
                res == SourceOutcome::Added && final(sources)@ == old(sources)@.push(
                    Source { url, enabled: true },
                )
            },
            action@ == "remove"@ ==> res == SourceOutcome::Removed && final(sources)@
                == without_url(old(sources)@, url@),
            action@ == "toggle"@ ==> res == SourceOutcome::Toggled && final(sources)@ == toggled(
                old(sources)@,
                url@,
                enabled,
            ),
            action@ != "add"@ && action@ != "remove"@ && action@ != "toggle"@ ==> res
                == SourceOutcome::InvalidAction && final(sources)@ == old(sources)@,
    {
        proof {
            reveal_strlit("add");
            reveal_strlit("remove");
            reveal_strlit("toggle");
            assert("add"@.len() != "remove"@.len());
            assert("add"@.len() != "toggle"@.len());
            assert("remove"@[0] != "toggle"@[0]);
        }
        if str_equal(action, "add") {
            if Self::has_source(sources, &url) {
                SourceOutcome::AlreadyExists
            } else {
                sources.push(Source { url, enabled: true });
                SourceOutcome::Added
            }
        } else if str_equal(action, "remove") {
            let mut taken: Vec<Source> = Vec::new();
            std::mem::swap(&mut taken, sources);
            let kept = Self::remove_source(taken, &url);
            *sources = kept;
            SourceOutcome::Removed
        } else if str_equal(action, "toggle") {
            Self::toggle_source(sources, &url, enabled);
            SourceOutcome::Toggled
        } else {
            SourceOutcome::InvalidAction
        }
    }
}

/// Dropping the sources at one address keeps no two sources at the same
/// address, and leaves none at the dropped one.
proof fn lemma_without_url_unique(sources: Seq<Source>, url: Seq<char>)
    requires
        source_urls(sources).no_duplicates(),
    ensures
        source_urls(without_url(sources, url)).no_duplicates(),
        !source_urls(without_url(sources, url)).contains(url),
        forall|u: Seq<char>| #[trigger] source_urls(without_url(sources, url)).contains(u)
            ==> source_urls(sources).contains(u),
    decreases sources.len(),
{
    reveal_with_fuel(Seq::<_>::filter, 1);
    let pred = |s: Source| s.url@ != url;
    if sources.len() > 0 {
        let init = sources.drop_last();
        assert(source_urls(init) =~= source_urls(sources).drop_last());
        assert forall|i: int, j: int|
            0 <= i < j < source_urls(init).len() implies source_urls(init)[i] != source_urls(
            init,
        )[j] by {
            assert(source_urls(init)[i] == source_urls(sources)[i]);
            assert(source_urls(init)[j] == source_urls(sources)[j]);
        }
        lemma_without_url_unique(init, url);
        let kept = without_url(init, url);
        assert forall|u: Seq<char>| #[trigger] source_urls(kept).contains(u) implies u
            != sources.last().url@ by {
            let k = choose|k: int| 0 <= k < source_urls(init).len() && source_urls(init)[k] == u;
            assert(source_urls(sources)[k] == u);
            assert(source_urls(sources)[sources.len() - 1] == sources.last().url@);
        }
        if pred(sources.last()) {
            assert(without_url(sources, url) == kept.push(sources.last()));
            assert(source_urls(kept.push(sources.last())) =~= source_urls(kept).push(
                sources.last().url@,
            ));
            crate::text::lemma_push_contains(source_urls(kept), sources.last().url@);
            assert forall|u: Seq<char>| #[trigger] source_urls(
                without_url(sources, url),
            ).contains(u) implies source_urls(sources).contains(u) by {
                if u == sources.last().url@ {
                    assert(source_urls(sources)[sources.len() - 1] == u);
                } else {
                    let k = choose|k: int|
                        0 <= k < source_urls(init).len() && source_urls(init)[k] == u;
                    assert(source_urls(sources)[k] == u);
                }
            }
            let all = source_urls(kept).push(sources.last().url@);
            assert forall|i: int, j: int| 0 <= i < j < all.len() implies all[i] != all[j] by {
                if j == all.len() - 1 {
                    assert(source_urls(kept).contains(all[i]));
                }
            }
        } else {
            assert(without_url(sources, url) == kept);
            assert forall|u: Seq<char>| #[trigger] source_urls(
                without_url(sources, url),
            ).contains(u) implies source_urls(sources).contains(u) by {
                let k = choose|k: int| 0 <= k < source_urls(init).len() && source_urls(init)[k] == u;
                assert(source_urls(sources)[k] == u);
            }
        }
    } else {
        assert(source_urls(without_url(sources, url)) =~= Seq::<Seq<char>>::empty());
    }
}

/// No two sources share an address: adding refuses an address that is
/// there, removing keeps the others apart and leaves none at the removed
/// address, and toggling keeps every address.
pub proof fn lemma_source_urls_stay_unique(
    sources: Seq<Source>,
    url: String,
    enabled: Option<bool>,
)
    requires
        source_urls(sources).no_duplicates(),
    ensures
        !source_urls(sources).contains(url@) ==> source_urls(
            sources.push(Source { url, enabled: true }),
        ).no_duplicates(),
        source_urls(without_url(sources, url@)).no_duplicates(),
        !source_urls(without_url(sources, url@)).contains(url@),
        source_urls(toggled(sources, url@, enabled)) == source_urls(sources),
{
    lemma_without_url_unique(sources, url@);
    lemma_first_source(sources, url@);
    assert(source_urls(toggled(sources, url@, enabled)) =~= source_urls(sources));
    if !source_urls(sources).contains(url@) {
        let all = source_urls(sources.push(Source { url, enabled: true }));
        assert(all =~= source_urls(sources).push(url@));
        assert forall|i: int, j: int| 0 <= i < j < all.len() implies all[i] != all[j] by {
            if j == all.len() - 1 {
                assert(source_urls(sources)[i] == all[i]);
            }
        }
    }
}

/// A toggle acts on the first source at the address and on no other: with
/// `Some(e)` that source ends up with `enabled == e` whatever it was, with
/// `None` its `enabled` flips; its address and every other source stay. With
/// no source at the address nothing changes.
pub proof fn lemma_toggle_acts_on_first_match(
    sources: Seq<Source>,
    url: Seq<char>,
    enabled: Option<bool>,
)
    ensures
        toggled(sources, url, enabled).len() == sources.len(),
        forall|i: int|
            0 <= i < sources.len() && sources[i].url@ == url && (forall|j: int|
                0 <= j < i ==> sources[j].url@ != url) ==> {
                &&& toggled(sources, url, enabled)[i].url == sources[i].url
                &&& (enabled matches Some(e) ==> toggled(sources, url, enabled)[i].enabled == e)
                &&& (enabled is None ==> toggled(sources, url, enabled)[i].enabled
                    == !sources[i].enabled)
                &&& forall|j: int|
                    0 <= j < sources.len() && j != i ==> toggled(sources, url, enabled)[j]
                        == sources[j]
            },
        (forall|j: int| 0 <= j < sources.len() ==> sources[j].url@ != url) ==> toggled(
            sources,
            url,
            enabled,
        ) == sources,
{
    lemma_first_source(sources, url);
    assert forall|i: int|
        0 <= i < sources.len() && sources[i].url@ == url && (forall|j: int|
            0 <= j < i ==> sources[j].url@ != url) implies first_source(sources, url) == i by {
        if first_source(sources, url) < i {
            assert(sources[first_source(sources, url)].url@ != url);
        }
    }
}

} // verus!
