use vstd::prelude::*;
use vstd::string::StrSliceExecFns;

use crate::task::Task;
use crate::task::TaskV;

verus! {

// ---------------------------------------------------------------------------
// The link pattern.
//
// A token (a whitespace-free slice of a page body) references the crawl
// domain when it contains the literal domain immediately followed by `/`.
// The captured path is everything after that `/` up to the first delimiter
// character, or up to the end of the token. Markup noise before the
// reference (a scheme, a `www.` label, surrounding text) and after the
// delimiter is tolerated and never captured.
// ---------------------------------------------------------------------------

/// Characters that end a captured path: closing quote, apostrophe,
/// backslash, markup bracket, or newline.
pub open spec fn is_delim(c: char) -> bool {
    c == '"' || c == '\'' || c == '\\' || c == '>' || c == '\n'
}

/// Characters on which a page body is split into tokens.
pub open spec fn is_space_char(c: char) -> bool {
    c == ' ' || c == '\t' || c == '\n' || c == '\r'
}

/// The token references the crawl domain at position `i`: the literal
/// domain occurs there, immediately followed by the `/` that introduces
/// the path.
pub open spec fn match_at(domain: Seq<char>, token: Seq<char>, i: int) -> bool {
    &&& 0 <= i
    &&& i + domain.len() + 1 <= token.len()
    &&& token.subrange(i, i + domain.len()) == domain
    &&& token[i + domain.len()] == '/'
}

/// The first position at or after `i` holding a delimiter, or the token's
/// length when no delimiter follows.
pub open spec fn path_end(token: Seq<char>, i: int) -> int
    decreases token.len() - i,
{
    if i < 0 || i >= token.len() {
        token.len() as int
    } else if is_delim(token[i]) {
        i
    } else {
        path_end(token, i + 1)
    }
}

/// The first position at or after `i` where the token references the
/// domain, or the token's length when it never does.
pub open spec fn first_match_from(domain: Seq<char>, token: Seq<char>, i: int) -> int
    decreases token.len() - i,
{
    if i < 0 || i >= token.len() {
        token.len() as int
    } else if match_at(domain, token, i) {
        i
    } else {
        first_match_from(domain, token, i + 1)
    }
}

/// What the extractor captures from one token: at the first reference to
/// the domain, the characters between the `/` and the first delimiter (or
/// the end of the token); `None` when the token never references the
/// domain followed by `/`.
pub open spec fn extract_spec(domain: Seq<char>, token: Seq<char>) -> Option<Seq<char>> {
    let m = first_match_from(domain, token, 0);
    if match_at(domain, token, m) {
        let start = m + domain.len() + 1;
        Some(token.subrange(start, path_end(token, start)))
    } else {
        None
    }
}

proof fn lemma_path_end_at(token: Seq<char>, i: int, e: int)
    requires
        0 <= i <= e <= token.len(),
        forall|k: int| i <= k < e ==> !is_delim(token[k]),
        e == token.len() || is_delim(token[e]),
    ensures
        path_end(token, i) == e,
    decreases e - i,
{
    if i < e {
        lemma_path_end_at(token, i + 1, e);
    }
}

proof fn lemma_first_match_at(domain: Seq<char>, token: Seq<char>, m: int)
    requires
        match_at(domain, token, m),
        forall|k: int| 0 <= k < m ==> !match_at(domain, token, k),
    ensures
        first_match_from(domain, token, 0) == m,
{
    lemma_first_match_at_from(domain, token, 0, m);
}

proof fn lemma_first_match_at_from(domain: Seq<char>, token: Seq<char>, i: int, m: int)
    requires
        0 <= i <= m,
        match_at(domain, token, m),
        forall|k: int| i <= k < m ==> !match_at(domain, token, k),
    ensures
        first_match_from(domain, token, i) == m,
    decreases m - i,
{
    if i < m {
        lemma_first_match_at_from(domain, token, i + 1, m);
    }
}

/// Compare the literal domain against the token at position `i`.
fn matches_at(domain: &str, token: &str, i: usize) -> (r: bool)
    requires
        i + domain@.len() + 1 <= token@.len(),
        token@.len() <= usize::MAX,
    ensures
        r == match_at(domain@, token@, i as int),
{
    let dlen = domain.unicode_len();
    let mut j: usize = 0;
    while j < dlen
        invariant
            j <= dlen,
            dlen == domain@.len(),
            i + dlen + 1 <= token@.len() <= usize::MAX,
            forall|k: int| 0 <= k < j ==> token@[i + k] == domain@[k],
        decreases dlen - j,
    {
        if token.get_char(i + j) != domain.get_char(j) {
            assert(token@.subrange(i as int, i + domain@.len())[j as int] != domain@[j as int]);
            return false;
        }
        j += 1;
    }
    if token.get_char(i + dlen) == '/' {
        assert(token@.subrange(i as int, i + domain@.len()) =~= domain@);
        true
    } else {
        false
    }
}

/// The first position where the token references the domain, if any.
fn find_match(domain: &str, token: &str) -> (r: Option<usize>)
    ensures
        (match r {
            Some(m) => m == first_match_from(domain@, token@, 0) && match_at(
                domain@,
                token@,
                m as int,
            ),
            None => !match_at(domain@, token@, first_match_from(domain@, token@, 0)),
        }),
{
    let tlen = token.unicode_len();
    let dlen = domain.unicode_len();
    if dlen >= tlen {
        return None;
    }
    let last = tlen - dlen - 1;
    let mut m: usize = 0;
    while m <= last
        invariant
            tlen == token@.len(),
            dlen == domain@.len(),
            dlen < tlen <= usize::MAX,
            last == tlen - dlen - 1,
            forall|k: int| 0 <= k < m ==> !match_at(domain@, token@, k),
        decreases tlen - m,
    {
        if matches_at(domain, token, m) {
            proof {
                lemma_first_match_at(domain@, token@, m as int);
            }
            return Some(m);
        }
        m += 1;
    }
    None
}

/// A worker owns one task and turns a page body fetched for that task's
/// URL into the list of newly discovered same-domain tasks. The `test`
/// flag selects the deterministic fetch strategy that the scheduler's
/// test mode plugs in instead of the network.
pub struct Worker {
    pub task: Task,
    pub test: bool,
}

impl Worker {
    pub fn new(task: Task, test: bool) -> (w: Worker)
        ensures
            w.task@ == task@,
            w.test == test,
    {
        Worker { task, test }
    }

    /// Apply the capture pattern for this worker's domain to one
    /// whitespace-free token.
    pub fn is_link_regex(&self, is_link_regex: &str) -> (r: Option<String>)
        ensures
            (match (r, extract_spec(self.task.domain@, is_link_regex@)) {
                (Some(found), Some(path)) => found@ == path,
                (None, None) => true,
                _ => false,
            }),
    {
        let token = is_link_regex;
        let tlen = token.unicode_len();
        match find_match(self.task.domain.as_str(), token) {
            None => None,
            Some(m) => {
                let dlen = self.task.domain.as_str().unicode_len();
                let start = m + dlen + 1;
                let mut e = start;
                while e < tlen && !delim_char(token.get_char(e))
                    invariant
                        tlen == token@.len() <= usize::MAX,
                        start <= e <= tlen,
                        forall|k: int| start <= k < e ==> !is_delim(token@[k]),
                    decreases tlen - e,
                {
                    e += 1;
                }
                proof {
                    lemma_path_end_at(token@, start as int, e as int);
                }
                Some(token.substring_char(start, e).to_owned())
            },
        }
    }

    /// One full unit of work under the deterministic test strategy: the
    /// worker reports its own task back together with whatever the
    /// strategy discovered. (In live mode the page body is fetched
    /// outside the library and handed to [`Worker::search_for_links`].)
    pub fn run_task(self) -> (r: (Task, Vec<Task>))
        requires
            self.test,
            spawns_child(self.task@) ==> self.task@.path.len() < usize::MAX,
        ensures
            r.0@ == self.task@,
            spawns_child(self.task@) ==> r.1.deep_view().len() == 1 && r.1.deep_view()[0].domain
                == self.task@.domain && r.1.deep_view()[0].path == child_path(self.task@.path)
                && r.1.deep_view()[0].status == 0,
            !spawns_child(self.task@) ==> r.1.deep_view().len() == 0,
    {
        let discovered = test_worker(&self.task);
        (self.task, discovered)
    }

    /// Split a page body on whitespace and run the capture pattern over
    /// every token; each captured path becomes a fresh pending task for
    /// this worker's domain, in order of appearance.
    #[verifier::loop_isolation(false)]
    pub fn search_for_links(&self, html: String) -> (new_tasks: Vec<Task>)
        ensures
            paths_of(new_tasks.deep_view()) == links_of(self.task.domain@, html@),
            forall|j: int|
                0 <= j < new_tasks.deep_view().len() ==> (#[trigger] new_tasks.deep_view()[j]).domain
                    == self.task.domain@ && new_tasks.deep_view()[j].status == 0,
    {
        let s = html.as_str();
        let n = s.unicode_len();
        let mut new_tasks: Vec<Task> = Vec::new();
        proof {
            assert(paths_of(new_tasks.deep_view()) + links_of(self.task.domain@, html@) =~= links_of(
                self.task.domain@,
                html@,
            ));
        }
        let mut i: usize = 0;
        while i < n
            invariant
                n == html@.len(),
                s@ == html@,
                i <= n,
                paths_of(new_tasks.deep_view()) + links_from(self.task.domain@, html@, i as int)
                    == links_of(self.task.domain@, html@),
                forall|j: int|
                    0 <= j < new_tasks.deep_view().len() ==> (#[trigger] new_tasks.deep_view()[j]).domain
                        == self.task.domain@ && new_tasks.deep_view()[j].status == 0,
            decreases n - i,
        {
            let c = s.get_char(i);
            if space_char(c) {
                i += 1;
            } else {
                let mut k = i + 1;
                while k < n && !space_char(s.get_char(k))
                    invariant
                        i < k <= n,
                        forall|t: int| i <= t < k ==> !is_space_char(html@[t]),
                    decreases n - k,
                {
                    k += 1;
                }
                proof {
                    lemma_token_end_at(html@, i as int, k as int);
                }
                let token = s.substring_char(i, k);
                match self.is_link_regex(token) {
                    Some(path) => {
                        let ghost prev = new_tasks.deep_view();
                        let ghost p = path@;
                        let t = Task::new(self.task.domain.clone(), path);
                        new_tasks.push(t);
                        proof {
                            assert(new_tasks.deep_view() =~= prev.push(t@));
                            assert(paths_of(prev.push(t@)) =~= paths_of(prev).push(p));
                            assert(paths_of(prev).push(p) + links_from(
                                self.task.domain@,
                                html@,
                                k as int,
                            ) =~= paths_of(prev) + (seq![p] + links_from(
                                self.task.domain@,
                                html@,
                                k as int,
                            )));
                        }
                    },
                    None => {},
                }
                i = k;
            }
        }
        proof {
            assert(paths_of(new_tasks.deep_view()) + Seq::<Seq<char>>::empty() =~= paths_of(
                new_tasks.deep_view(),
            ));
        }
        new_tasks
    }
}

// ---------------------------------------------------------------------------
// Splitting a page body into tokens.
// ---------------------------------------------------------------------------

/// The first position at or after `i` holding whitespace, or the body's
/// length: the end of the token that starts at `i`.
pub open spec fn token_end(body: Seq<char>, i: int) -> int
    decreases body.len() - i,
{
    if i < 0 || i >= body.len() {
        body.len() as int
    } else if is_space_char(body[i]) {
        i
    } else {
        token_end(body, i + 1)
    }
}

proof fn lemma_token_end_bounds(body: Seq<char>, i: int)
    requires
        0 <= i <= body.len(),
    ensures
        i <= token_end(body, i) <= body.len(),
    decreases body.len() - i,
{
    if i < body.len() && !is_space_char(body[i]) {
        lemma_token_end_bounds(body, i + 1);
    }
}

proof fn lemma_token_end_at(body: Seq<char>, i: int, e: int)
    requires
        0 <= i <= e <= body.len(),
        forall|k: int| i <= k < e ==> !is_space_char(body[k]),
        e == body.len() || is_space_char(body[e]),
    ensures
        token_end(body, i) == e,
    decreases e - i,
{
    if i < e {
        lemma_token_end_at(body, i + 1, e);
    }
}

/// All paths extracted from the body at or after position `i`: the body
/// is split on whitespace and each token is run through [`extract_spec`],
/// in order of appearance.
pub open spec fn links_from(domain: Seq<char>, body: Seq<char>, i: int) -> Seq<Seq<char>>
    decreases body.len() - i,
    via links_from_dec
{
    if i < 0 || i >= body.len() {
        Seq::empty()
    } else if is_space_char(body[i]) {
        links_from(domain, body, i + 1)
    } else {
        let k = token_end(body, i);
        let rest = links_from(domain, body, k);
        match extract_spec(domain, body.subrange(i, k)) {
            Some(p) => seq![p] + rest,
            None => rest,
        }
    }
}

#[via_fn]
proof fn links_from_dec(domain: Seq<char>, body: Seq<char>, i: int) {
    if 0 <= i && i < body.len() && !is_space_char(body[i]) {
        lemma_token_end_bounds(body, i + 1);
    }
}

/// Every same-domain path referenced by the body, in order of appearance.
pub open spec fn links_of(domain: Seq<char>, body: Seq<char>) -> Seq<Seq<char>> {
    links_from(domain, body, 0)
}

/// The paths of a task sequence, in order.
pub open spec fn paths_of(tasks: Seq<TaskV>) -> Seq<Seq<char>> {
    tasks.map_values(|t: TaskV| t.path)
}

// ---------------------------------------------------------------------------
// The deterministic test strategy.
// ---------------------------------------------------------------------------

/// Under the deterministic test strategy a task spawns one discovery
/// exactly when its path's character count plus one is even.
pub open spec fn spawns_child(t: TaskV) -> bool {
    (t.path.len() + 1) % 2 == 0
}

/// The path such a task discovers: its path's first character repeated
/// one more time than the path's length.
pub open spec fn child_path(p: Seq<char>) -> Seq<char> {
    Seq::new(p.len() + 1, |i: int| p[0])
}

/// Relies on `String::push`: appends exactly one character at the end.
#[verifier::external_body]
fn push_char(s: &mut String, c: char)
    ensures
        final(s)@ == old(s)@.push(c),
{
    s.push(c);
}

/// The deterministic fetch strategy that replaces the network in test
/// mode: a task whose path has an odd number of characters discovers one
/// new pending task for the same domain — the path's first character
/// repeated (length + 1) times — and every other task discovers nothing.
#[verifier::loop_isolation(false)]
pub fn test_worker(task: &Task) -> (discovered: Vec<Task>)
    requires
        spawns_child(task@) ==> task@.path.len() < usize::MAX,
    ensures
        spawns_child(task@) ==> discovered.deep_view().len() == 1
            && discovered.deep_view()[0].domain == task@.domain && discovered.deep_view()[0].path
            == child_path(task@.path) && discovered.deep_view()[0].status == 0,
        !spawns_child(task@) ==> discovered.deep_view().len() == 0,
{
    let len = task.sub_domain.as_str().unicode_len();
    let mut discovered: Vec<Task> = Vec::new();
    if len % 2 == 1 {
        let c = task.sub_domain.as_str().get_char(0);
        let mut new_item = String::new();
        let mut j: usize = 0;
        while j <= len
            invariant
                j <= len + 1,
                new_item@.len() == j,
                forall|k: int| 0 <= k < j ==> new_item@[k] == task@.path[0],
            decreases len + 1 - j,
        {
            push_char(&mut new_item, c);
            j += 1;
        }
        proof {
            assert(new_item@ =~= child_path(task@.path));
        }
        discovered.push(Task::new(task.domain.clone(), new_item));
        proof {
            assert(discovered.deep_view() =~= Seq::empty().push(discovered@[0]@));
        }
    }
    discovered
}

/// Decide [`is_delim`] on one character.
fn delim_char(c: char) -> (r: bool)
    ensures
        r == is_delim(c),
{
    c == '"' || c == '\'' || c == '\\' || c == '>' || c == '\n'
}

/// Decide [`is_space_char`] on one character.
fn space_char(c: char) -> (r: bool)
    ensures
        r == is_space_char(c),
{
    c == ' ' || c == '\t' || c == '\n' || c == '\r'
}

} // verus!
