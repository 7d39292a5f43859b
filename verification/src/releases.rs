//! Release-note discovery for a selected version.
//!
//! The decisions are made here; the HTTP requests that verify an exact
//! release page are made outside the library, one `release_step` at a time.
//! URLs are held as their serialisation.

use vstd::prelude::*;
use crate::model::{ComponentId, ReleaseLink, ReleaseMatch};
use crate::text::{chars_end_with, chars_of, chars_start_with, concat, ends_with, find_chars, find_from, lemma_find_from_bounds, occurs_at, split_chars, split_on, starts_with, string_from, string_of, str_equal};

verus! {

/// A selected component and the repository metadata URLs Gradle reported.
#[derive(Clone, Debug)]
pub struct ReleaseCandidate {
    pub component: ComponentId,
    pub metadata_urls: Vec<String>,
}

/// A parsed URL: its serialisation, host and path.
#[derive(Clone, Debug)]
pub struct UrlParts {
    pub text: String,
    pub host: Option<String>,
    pub path: String,
}

pub open spec fn opt_chars(o: Option<String>) -> Option<Seq<char>> {
    match o {
        Some(s) => Some(s@),
        None => None,
    }
}

/// What `url::Url::parse` makes of a text: serialisation, host and path.
pub uninterp spec fn url_parse(text: Seq<char>) -> Option<(Seq<char>, Option<Seq<char>>, Seq<char>)>;

/// The serialisation of `Url::join(base, input)`.
pub uninterp spec fn url_join(base: Seq<char>, input: Seq<char>) -> Option<Seq<char>>;

/// The serialisation of a URL after `Url::set_path(path)`.
pub uninterp spec fn url_set_path(url: Seq<char>, path: Seq<char>) -> Option<Seq<char>>;

/// `url::Url::parse`; the parsed URL is read back through `as_str`,
/// `host_str` and `path`.  The contract names the result and says nothing of
/// URL syntax.
#[verifier::external_body]
fn parse_url(text: &str) -> (r: Option<UrlParts>)
    ensures
        match r {
            Some(p) => url_parse(text@) == Some((p.text@, opt_chars(p.host), p.path@)),
            None => url_parse(text@) is None,
        },
{
    url::Url::parse(text).ok().map(
        |u| UrlParts { text: u.as_str().to_owned(), host: u.host_str().map(|h| h.to_owned()), path: u.path().to_owned() },
    )
}

/// `url::Url::join` on the URL whose serialisation is `base` (parsing a
/// serialisation gives back the same URL).  The contract names the result.
#[verifier::external_body]
fn join_url(base: &str, input: &str) -> (r: Option<String>)
    ensures
        opt_chars(r) == url_join(base@, input@),
{
    url::Url::parse(base).ok()?.join(input).ok().map(|u| u.as_str().to_owned())
}

/// `url::Url::set_path` on the URL whose serialisation is `url`.  The
/// contract names the result.
#[verifier::external_body]
fn set_url_path(url: &str, path: &str) -> (r: Option<String>)
    ensures
        opt_chars(r) == url_set_path(url@, path@),
{
    let mut u = url::Url::parse(url).ok()?;
    u.set_path(path);
    Some(u.as_str().to_owned())
}

// ------------------------------------------------------------ AndroidX

/// The release family of an AndroidX group: the label after `androidx.`.
pub open spec fn androidx_family(group: Seq<char>) -> Option<Seq<char>> {
    if starts_with(group, "androidx."@) {
        Some(split_on(group.skip(9), '.')[0])
    } else {
        None
    }
}

/// The AndroidX release page of a family, anchored at a version.
pub open spec fn androidx_address(family: Seq<char>, version: Seq<char>) -> Seq<char> {
    "https://developer.android.com/jetpack/androidx/releases/"@ + family + "#"@ + version
}

/// The AndroidX release notes of a component, when it is an AndroidX one.
pub open spec fn spec_androidx_url(c: ComponentId) -> Option<Seq<char>> {
    match androidx_family(c.module.group@) {
        None => None,
        Some(f) => match url_parse(androidx_address(f, c.version@)) {
            Some(parts) => Some(parts.0),
            None => None,
        },
    }
}

/// The AndroidX release notes of a component, when it is an AndroidX one.
pub fn androidx_url(component: &ComponentId) -> (r: Option<String>)
    ensures
        opt_chars(r) == spec_androidx_url(*component),
{
    proof {
        reveal_strlit("androidx.");
        reveal_strlit("https://developer.android.com/jetpack/androidx/releases/");
        reveal_strlit("#");
    }
    let group = chars_of(component.module.group.as_str());
    let prefix = chars_of("androidx.");
    if !chars_start_with(&group, &prefix) {
        return None;
    }
    let rest = string_of(&group, 9, group.len());
    assert(rest@ =~= group@.skip(9));
    let pieces = split_chars(&chars_of(rest.as_str()), '.');
    proof {
        crate::text::lemma_split_nonempty(rest@, '.');
    }
    assert(pieces.deep_view()[0] == pieces@[0]@);
    let address = concat("https://developer.android.com/jetpack/androidx/releases/", pieces[0].as_str());
    let address = concat(address.as_str(), "#");
    let address = concat(address.as_str(), component.version.as_str());
    match parse_url(address.as_str()) {
        Some(parts) => Some(parts.text),
        None => None,
    }
}

// ------------------------------------------------------------ repositories

/// `s` with every occurrence of `p` (left to right, not overlapping)
/// replaced by `r` (`str::replace`).
pub open spec fn replace_all(s: Seq<char>, p: Seq<char>, r: Seq<char>) -> Seq<char>
    decreases s.len(),
{
    if p.len() == 0 {
        s
    } else {
        match find_from(s, p, 0) {
            None => s,
            Some(i) => if i + p.len() <= s.len() {
                s.take(i as int) + r + replace_all(s.skip((i + p.len()) as int), p, r)
            } else {
                s
            },
        }
    }
}

/// `s` with `p` removed from its end as often as it ends with it
/// (`str::trim_end_matches`).
pub open spec fn trim_suffix(s: Seq<char>, p: Seq<char>) -> Seq<char>
    decreases s.len(),
{
    if p.len() > 0 && ends_with(s, p) {
        trim_suffix(s.take(s.len() - p.len()), p)
    } else {
        s
    }
}

/// `s` without a leading `scm:git:`.
pub open spec fn strip_scm(s: Seq<char>) -> Seq<char> {
    if starts_with(s, "scm:git:"@) {
        s.skip(8)
    } else {
        s
    }
}

/// A metadata URL rewritten as a web address: `scm:git:` dropped, GitHub
/// and GitLab SSH addresses made HTTPS, trailing `.git` removed.
pub open spec fn repository_text(value: Seq<char>) -> Seq<char> {
    trim_suffix(
        replace_all(
            replace_all(strip_scm(value), "git@github.com:"@, "https://github.com/"@),
            "git@gitlab.com:"@,
            "https://gitlab.com/"@,
        ),
        ".git"@,
    )
}

/// Hosts whose release pages are known.
pub open spec fn known_host(host: Option<Seq<char>>) -> bool {
    host == Some("github.com"@) || host == Some("gitlab.com"@) || host == Some("127.0.0.1"@)
}

/// The repository a metadata URL establishes, as a base URL whose path ends
/// with `/`: only GitHub, GitLab and local addresses count.
pub open spec fn spec_repository(value: Seq<char>) -> Option<Seq<char>> {
    match url_parse(repository_text(value)) {
        None => None,
        Some((text, host, path)) => if !known_host(host) {
            None
        } else if ends_with(path, "/"@) {
            Some(text)
        } else {
            url_set_path(text, path + "/"@)
        },
    }
}

/// `s` with every occurrence of `p` replaced by `r`.
fn replace_chars(s: &Vec<char>, p: &Vec<char>, r: &str) -> (out: String)
    requires
        p@.len() > 0,
    ensures
        out@ == replace_all(s@, p@, r@),
{
    let mut out = String::new();
    let mut at: usize = 0;
    assert(s@.skip(0) =~= s@);
    while at <= s.len()
        invariant
            p@.len() > 0,
            at <= s@.len(),
            out@ + replace_all(s@.skip(at as int), p@, r@) == replace_all(s@, p@, r@),
        decreases s.len() - at,
    {
        let ghost rest = s@.skip(at as int);
        match find_chars(s, p, at) {
            None => {
                proof {
                    lemma_find_from_bounds(s@, p@, at as nat);
                    lemma_find_shift(s@, p@, at as nat);
                }
                let tail = string_of(s, at, s.len());
                assert(tail@ =~= rest);
                out.append(tail.as_str());
                return out;
            },
            Some(i) => {
                proof {
                    lemma_find_from_bounds(s@, p@, at as nat);
                    lemma_find_shift(s@, p@, at as nat);
                    assert(occurs_at(s@, p@, i as int));
                }
                let total = s.len();
                assert(i + p@.len() <= total);
                let piece = string_of(s, at, i);
                assert(piece@ =~= rest.take(i - at));
                out.append(piece.as_str());
                out.append(r);
                assert(rest.skip(i - at + p@.len()) =~= s@.skip(i + p@.len()));
                at = i + p.len();
            },
        }
    }
    out
}

/// Searching `s` from `from` is searching its suffix from the start.
proof fn lemma_find_shift(s: Seq<char>, p: Seq<char>, from: nat)
    requires
        from <= s.len(),
    ensures
        match find_from(s.skip(from as int), p, 0) {
            Some(k) => find_from(s, p, from) == Some(k + from),
            None => find_from(s, p, from) is None,
        },
{
    lemma_find_shift_at(s, p, from, 0);
}

proof fn lemma_find_shift_at(s: Seq<char>, p: Seq<char>, from: nat, k: nat)
    requires
        from <= s.len(),
    ensures
        match find_from(s.skip(from as int), p, k) {
            Some(j) => find_from(s, p, from + k) == Some(j + from),
            None => find_from(s, p, from + k) is None,
        },
    decreases s.len() + 1 - from - k,
{
    let t = s.skip(from as int);
    if k > t.len() || k + p.len() > t.len() {
    } else {
        assert(t.subrange(k as int, (k + p.len()) as int) =~= s.subrange((from + k) as int, (from + k + p.len()) as int));
        if !occurs_at(t, p, k as int) {
            lemma_find_shift_at(s, p, from, k + 1);
        }
    }
}

/// `s` with `p` removed from its end as often as it ends with it.
fn trim_suffix_chars(s: &Vec<char>, p: &Vec<char>) -> (out: String)
    requires
        p@.len() > 0,
    ensures
        out@ == trim_suffix(s@, p@),
{
    let mut end = s.len();
    let mut cur: Vec<char> = s.clone();
    assert(cur@ =~= s@.take(end as int));
    loop
        invariant
            p@.len() > 0,
            end <= s@.len(),
            cur@ == s@.take(end as int),
            trim_suffix(s@, p@) == trim_suffix(cur@, p@),
        decreases end,
    {
        if !chars_end_with(&cur, p) {
            return string_from(&cur);
        }
        end = end - p.len();
        let mut next: Vec<char> = Vec::new();
        let mut i: usize = 0;
        while i < end
            invariant
                end <= cur@.len(),
                i <= end,
                next@ == cur@.take(i as int),
            decreases end - i,
        {
            next.push(cur[i]);
            assert(cur@.take(i + 1) =~= cur@.take(i as int).push(cur@[i as int]));
            i += 1;
        }
        assert(next@ =~= s@.take(end as int));
        assert(cur@.take(cur@.len() - p@.len()) =~= s@.take(end as int));
        cur = next;
    }
}

/// The repository a metadata URL establishes; see `spec_repository`.
pub fn normalize_repository(value: &str) -> (r: Option<String>)
    ensures
        opt_chars(r) == spec_repository(value@),
{
    proof {
        reveal_strlit("scm:git:");
        reveal_strlit("git@github.com:");
        reveal_strlit("https://github.com/");
        reveal_strlit("git@gitlab.com:");
        reveal_strlit("https://gitlab.com/");
        reveal_strlit(".git");
        reveal_strlit("github.com");
        reveal_strlit("gitlab.com");
        reveal_strlit("127.0.0.1");
        reveal_strlit("/");
    }
    let cs = chars_of(value);
    let stripped = if chars_start_with(&cs, &chars_of("scm:git:")) {
        let t = string_of(&cs, 8, cs.len());
        assert(t@ =~= cs@.skip(8));
        chars_of(t.as_str())
    } else {
        cs
    };
    let a = replace_chars(&stripped, &chars_of("git@github.com:"), "https://github.com/");
    let b = replace_chars(&chars_of(a.as_str()), &chars_of("git@gitlab.com:"), "https://gitlab.com/");
    let c = trim_suffix_chars(&chars_of(b.as_str()), &chars_of(".git"));
    let parts = match parse_url(c.as_str()) {
        Some(parts) => parts,
        None => return None,
    };
    let known = match &parts.host {
        Some(h) => str_equal(h.as_str(), "github.com") || str_equal(h.as_str(), "gitlab.com") || str_equal(
            h.as_str(),
            "127.0.0.1",
        ),
        None => false,
    };
    if !known {
        return None;
    }
    if chars_end_with(&chars_of(parts.path.as_str()), &chars_of("/")) {
        Some(parts.text)
    } else {
        let path = concat(parts.path.as_str(), "/");
        set_url_path(parts.text.as_str(), path.as_str())
    }
}

// ------------------------------------------------------------ planning

/// The first repository that the metadata URLs among the first `k` establish.
pub open spec fn first_repository(urls: Seq<String>, k: nat) -> Option<Seq<char>>
    decreases k,
{
    if k == 0 || k > urls.len() {
        None
    } else {
        match first_repository(urls, (k - 1) as nat) {
            Some(r) => Some(r),
            None => spec_repository(urls[k - 1]@),
        }
    }
}

/// The release paths tried for a version, in order: the raw version and the
/// `v`-prefixed version, each as a GitHub tag page and a GitLab release page.
pub open spec fn candidate_paths(version: Seq<char>) -> Seq<Seq<char>> {
    seq![
        "releases/tag/"@ + version,
        "-/releases/"@ + version,
        "releases/tag/"@ + ("v"@ + version),
        "-/releases/"@ + ("v"@ + version),
    ]
}

/// The first `k` paths joined onto the repository, leaving out those that do
/// not join.
pub open spec fn joined_paths(repo: Seq<char>, paths: Seq<Seq<char>>, k: nat) -> Seq<Seq<char>>
    decreases k,
{
    if k == 0 || k > paths.len() {
        Seq::empty()
    } else {
        let init = joined_paths(repo, paths, (k - 1) as nat);
        match url_join(repo, paths[k - 1]) {
            Some(u) => init.push(u),
            None => init,
        }
    }
}

/// A release link as a value.
pub open spec fn link_view(l: ReleaseLink) -> (Seq<char>, Option<Seq<char>>, ReleaseMatch, Option<Seq<char>>) {
    (l.version@, opt_chars(l.url), l.match_kind, opt_chars(l.diagnostic))
}

/// How release notes for a component are found.
#[derive(Debug)]
pub enum ReleasePlan {
    /// Known without asking the network.
    Done(ReleaseLink),
    /// Verify the candidate pages in order; fall back to the generic page.
    Probe { version: String, candidates: Vec<String>, generic: String },
}

/// What verifying one candidate page gave.
#[derive(Clone, Debug)]
pub enum ProbeOutcome {
    /// The page answered with success.
    Verified,
    /// The page answered without success.
    Rejected,
    /// The request failed; the error's text.
    Failed(String),
}

/// What to do next while finding release notes.
#[derive(Debug)]
pub enum ReleaseStep {
    /// Verify this page and report the outcome.
    Probe(String),
    /// The release notes found.
    Finish(ReleaseLink),
}

/// The plan for a component: AndroidX pages are exact; otherwise the first
/// repository established by the metadata gives candidate pages to verify
/// and a generic `releases` page; without one there is no link.
pub open spec fn plan_matches(candidate: ReleaseCandidate, plan: ReleasePlan) -> bool {
    let version = candidate.component.version@;
    match spec_androidx_url(candidate.component) {
        Some(u) => plan matches ReleasePlan::Done(l) && link_view(l) == (version, Some(u), ReleaseMatch::Exact, None::<Seq<char>>),
        None => match first_repository(candidate.metadata_urls@, candidate.metadata_urls@.len()) {
            None => plan matches ReleasePlan::Done(l) && link_view(l) == (version, None::<Seq<char>>, ReleaseMatch::Unmatched, None::<Seq<char>>),
            Some(repo) => plan matches ReleasePlan::Probe { version: v, candidates, generic } && v@ == version
                && candidates.deep_view() == joined_paths(repo, candidate_paths(version), 4)
                && generic@ == (match url_join(repo, "releases"@) {
                    Some(g) => g,
                    None => repo,
                }),
        },
    }
}

/// The first repository the metadata URLs establish.
fn find_repository(urls: &Vec<String>) -> (r: Option<String>)
    ensures
        opt_chars(r) == first_repository(urls@, urls@.len()),
{
    let mut i: usize = 0;
    while i < urls.len()
        invariant
            i <= urls@.len(),
            first_repository(urls@, i as nat) is None,
        decreases urls.len() - i,
    {
        if let Some(repo) = normalize_repository(urls[i].as_str()) {
            proof {
                lemma_first_repository_stays(urls@, (i + 1) as nat, urls@.len());
            }
            return Some(repo);
        }
        i += 1;
    }
    None
}

proof fn lemma_first_repository_stays(urls: Seq<String>, k: nat, m: nat)
    requires
        k <= m <= urls.len(),
        first_repository(urls, k) is Some,
    ensures
        first_repository(urls, m) == first_repository(urls, k),
    decreases m - k,
{
    if m > k {
        lemma_first_repository_stays(urls, k, (m - 1) as nat);
    }
}

/// Plans the search for a component's release notes; see `plan_matches`.
pub fn plan_release(candidate: &ReleaseCandidate) -> (r: ReleasePlan)
    ensures
        plan_matches(*candidate, r),
{
    proof {
        reveal_strlit("releases");
        reveal_strlit("releases/tag/");
        reveal_strlit("-/releases/");
        reveal_strlit("v");
    }
    let version = &candidate.component.version;
    if let Some(url) = androidx_url(&candidate.component) {
        return ReleasePlan::Done(
            ReleaseLink { version: version.clone(), url: Some(url), match_kind: ReleaseMatch::Exact, diagnostic: None },
        );
    }
    let repo = match find_repository(&candidate.metadata_urls) {
        Some(repo) => repo,
        None => {
            return ReleasePlan::Done(
                ReleaseLink { version: version.clone(), url: None, match_kind: ReleaseMatch::Unmatched, diagnostic: None },
            );
        },
    };
    let generic = match join_url(repo.as_str(), "releases") {
        Some(g) => g,
        None => repo.clone(),
    };
    let prefixed = concat("v", version.as_str());
    let mut paths: Vec<String> = Vec::new();
    paths.push(concat("releases/tag/", version.as_str()));
    paths.push(concat("-/releases/", version.as_str()));
    paths.push(concat("releases/tag/", prefixed.as_str()));
    paths.push(concat("-/releases/", prefixed.as_str()));
    let ghost cp = candidate_paths(version@);
    assert(paths.deep_view() =~= cp);
    let mut candidates: Vec<String> = Vec::new();
    let mut k: usize = 0;
    while k < paths.len()
        invariant
            k <= paths@.len(),
            paths@.len() == 4,
            paths.deep_view() == cp,
            candidates.deep_view() == joined_paths(repo@, cp, k as nat),
        decreases paths.len() - k,
    {
        assert(paths.deep_view()[k as int] == paths@[k as int]@);
        let ghost before = candidates.deep_view();
        if let Some(u) = join_url(repo.as_str(), paths[k].as_str()) {
            candidates.push(u);
            assert(candidates.deep_view() =~= before.push(u@));
        }
        k += 1;
    }
    ReleasePlan::Probe { version: version.clone(), candidates, generic }
}

/// The first `Verified` among the first `k` outcomes.
pub open spec fn first_verified(outcomes: Seq<ProbeOutcome>, k: nat) -> Option<int>
    decreases k,
{
    if k == 0 || k > outcomes.len() {
        None
    } else {
        match first_verified(outcomes, (k - 1) as nat) {
            Some(i) => Some(i),
            None => if outcomes[k - 1] is Verified {
                Some(k - 1)
            } else {
                None
            },
        }
    }
}

/// The text of the last `Failed` among the first `k` outcomes.
pub open spec fn last_failure(outcomes: Seq<ProbeOutcome>, k: nat) -> Option<Seq<char>>
    decreases k,
{
    if k == 0 || k > outcomes.len() {
        None
    } else {
        match outcomes[k - 1] {
            ProbeOutcome::Failed(e) => Some(e@),
            _ => last_failure(outcomes, (k - 1) as nat),
        }
    }
}

/// The next step given the outcomes of the pages verified so far, in
/// candidate order: the first verified page is exact; while candidates
/// remain, verify the next one; otherwise the generic page, with the last
/// request failure as a note.
pub open spec fn step_matches(plan: ReleasePlan, outcomes: Seq<ProbeOutcome>, step: ReleaseStep) -> bool {
    match plan {
        ReleasePlan::Done(l) => step matches ReleaseStep::Finish(s) && link_view(s) == link_view(l),
        ReleasePlan::Probe { version, candidates, generic } => match first_verified(outcomes, outcomes.len()) {
            Some(k) => step matches ReleaseStep::Finish(s) && link_view(s) == (
                version@,
                Some(candidates@[k]@),
                ReleaseMatch::Exact,
                None::<Seq<char>>,
            ),
            None => if outcomes.len() < candidates@.len() {
                step matches ReleaseStep::Probe(u) && u@ == candidates@[outcomes.len() as int]@
            } else {
                step matches ReleaseStep::Finish(s) && link_view(s) == (
                    version@,
                    Some(generic@),
                    ReleaseMatch::Generic,
                    match last_failure(outcomes, outcomes.len()) {
                        Some(e) => Some("could not verify exact release: "@ + e),
                        None => None,
                    },
                )
            },
        },
    }
}

fn copy_text(o: &Option<String>) -> (r: Option<String>)
    ensures
        opt_chars(r) == opt_chars(*o),
{
    match o {
        Some(s) => Some(s.clone()),
        None => None,
    }
}

/// Decides the next step of a release search; see `step_matches`.
pub fn release_step(plan: &ReleasePlan, outcomes: &Vec<ProbeOutcome>) -> (r: ReleaseStep)
    requires
        plan matches ReleasePlan::Probe { candidates, .. } ==> outcomes@.len() <= candidates@.len(),
    ensures
        step_matches(*plan, outcomes@, r),
{
    match plan {
        ReleasePlan::Done(link) => ReleaseStep::Finish(
            ReleaseLink {
                version: link.version.clone(),
                url: copy_text(&link.url),
                match_kind: link.match_kind,
                diagnostic: copy_text(&link.diagnostic),
            },
        ),
        ReleasePlan::Probe { version, candidates, generic } => {
            let mut i: usize = 0;
            let mut failure: Option<String> = None;
            while i < outcomes.len()
                invariant
                    i <= outcomes@.len() <= candidates@.len(),
                    *plan == (ReleasePlan::Probe { version: *version, candidates: *candidates, generic: *generic }),
                    first_verified(outcomes@, i as nat) is None,
                    opt_chars(failure) == last_failure(outcomes@, i as nat),
                decreases outcomes.len() - i,
            {
                match &outcomes[i] {
                    ProbeOutcome::Verified => {
                        proof {
                            assert(first_verified(outcomes@, (i + 1) as nat) == Some(i as int));
                            lemma_first_verified_stays(outcomes@, (i + 1) as nat, outcomes@.len());
                        }
                        let link = ReleaseLink {
                            version: version.clone(),
                            url: Some(candidates[i].clone()),
                            match_kind: ReleaseMatch::Exact,
                            diagnostic: None,
                        };
                        return ReleaseStep::Finish(link);
                    },
                    ProbeOutcome::Rejected => {},
                    ProbeOutcome::Failed(e) => {
                        failure = Some(e.clone());
                    },
                }
                i += 1;
            }
            if outcomes.len() < candidates.len() {
                return ReleaseStep::Probe(candidates[outcomes.len()].clone());
            }
            proof {
                reveal_strlit("could not verify exact release: ");
            }
            let diagnostic = match failure {
                Some(e) => Some(concat("could not verify exact release: ", e.as_str())),
                None => None,
            };
            ReleaseStep::Finish(
                ReleaseLink { version: version.clone(), url: Some(generic.clone()), match_kind: ReleaseMatch::Generic, diagnostic },
            )
        },
    }
}

proof fn lemma_first_verified_stays(outcomes: Seq<ProbeOutcome>, k: nat, m: nat)
    requires
        k <= m <= outcomes.len(),
        first_verified(outcomes, k) is Some,
    ensures
        first_verified(outcomes, m) == first_verified(outcomes, k),
    decreases m - k,
{
    if m > k {
        lemma_first_verified_stays(outcomes, k, (m - 1) as nat);
    }
}

/// A release link is called exact only for the AndroidX release page of the
/// component, or for the candidate page whose verification succeeded: the
/// `i`-th outcome answers the `i`-th probe, which is sent to the `i`-th
/// candidate.
pub proof fn lemma_exact_only_when_verified(
    candidate: ReleaseCandidate,
    plan: ReleasePlan,
    outcomes: Seq<ProbeOutcome>,
    step: ReleaseStep,
)
    requires
        plan_matches(candidate, plan),
        plan matches ReleasePlan::Probe { candidates, .. } ==> outcomes.len() <= candidates@.len(),
        step_matches(plan, outcomes, step),
        step matches ReleaseStep::Finish(l) && l.match_kind == ReleaseMatch::Exact,
    ensures
        match spec_androidx_url(candidate.component) {
            Some(u) => opt_chars(step->Finish_0.url) == Some(u),
            None => plan matches ReleasePlan::Probe { candidates, .. } && exists|i: int|
                0 <= i < outcomes.len() && #[trigger] outcomes[i] is Verified && opt_chars(step->Finish_0.url)
                    == Some(candidates@[i]@),
        },
{
    lemma_first_verified_found(outcomes, outcomes.len());
}

/// When no candidate page is verified and all have been tried, the search
/// ends at the generic page, with a note exactly when some request failed;
/// without a repository there is no link at all.
pub proof fn lemma_generic_fallback(
    candidate: ReleaseCandidate,
    plan: ReleasePlan,
    outcomes: Seq<ProbeOutcome>,
    step: ReleaseStep,
)
    requires
        plan_matches(candidate, plan),
        step_matches(plan, outcomes, step),
        spec_androidx_url(candidate.component) is None,
        forall|i: int| 0 <= i < outcomes.len() ==> !(#[trigger] outcomes[i] is Verified),
        plan matches ReleasePlan::Probe { candidates, .. } ==> outcomes.len() == candidates@.len(),
    ensures
        step is Finish,
        step->Finish_0.version@ == candidate.component.version@,
        first_repository(candidate.metadata_urls@, candidate.metadata_urls@.len()) is None ==> (
        step->Finish_0.match_kind == ReleaseMatch::Unmatched && step->Finish_0.url is None),
        first_repository(candidate.metadata_urls@, candidate.metadata_urls@.len()) is Some ==> {
            &&& plan is Probe
            &&& step->Finish_0.match_kind == ReleaseMatch::Generic
            &&& opt_chars(step->Finish_0.url) == Some(plan->Probe_generic@)
            &&& (step->Finish_0.diagnostic is Some <==> exists|i: int|
                0 <= i < outcomes.len() && #[trigger] outcomes[i] is Failed)
        },
{
    lemma_first_verified_found(outcomes, outcomes.len());
    lemma_no_verified(outcomes, outcomes.len());
    lemma_last_failure_found(outcomes, outcomes.len());
}

proof fn lemma_no_verified(outcomes: Seq<ProbeOutcome>, k: nat)
    requires
        k <= outcomes.len(),
        forall|i: int| 0 <= i < outcomes.len() ==> !(#[trigger] outcomes[i] is Verified),
    ensures
        first_verified(outcomes, k) is None,
    decreases k,
{
    if k > 0 {
        lemma_no_verified(outcomes, (k - 1) as nat);
    }
}

proof fn lemma_last_failure_found(outcomes: Seq<ProbeOutcome>, k: nat)
    requires
        k <= outcomes.len(),
    ensures
        last_failure(outcomes, k) is Some <==> exists|i: int| 0 <= i < k && #[trigger] outcomes[i] is Failed,
    decreases k,
{
    if k > 0 {
        lemma_last_failure_found(outcomes, (k - 1) as nat);
        if outcomes[k - 1] is Failed {
            assert(outcomes[k - 1] is Failed);
        } else if exists|i: int| 0 <= i < k && #[trigger] outcomes[i] is Failed {
            let i = choose|i: int| 0 <= i < k && #[trigger] outcomes[i] is Failed;
            assert(i < k - 1);
        }
    }
}

proof fn lemma_first_verified_found(outcomes: Seq<ProbeOutcome>, k: nat)
    ensures
        first_verified(outcomes, k) matches Some(i) ==> 0 <= i < outcomes.len() && outcomes[i] is Verified,
    decreases k,
{
    if k > 0 {
        lemma_first_verified_found(outcomes, (k - 1) as nat);
    }
}

} // verus!
