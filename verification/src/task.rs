use vstd::prelude::*;
use vstd::string::StrSliceExecFns;
use vstd::string::StringExecFns;

verus! {

/// One crawl target: the domain being crawled plus a relative path, with a
/// lifecycle status. `status` is 0 while the task waits for a worker
/// (pending), 1 while a worker is fetching it (in flight), and 2 once its
/// result has been merged back (done).
#[derive(Debug)]
pub struct Task {
    pub domain: String,
    pub sub_domain: String,
    pub status: usize,
}

/// The mathematical image of a [`Task`]: both strings as character
/// sequences and the status as an unbounded integer.
pub ghost struct TaskV {
    pub domain: Seq<char>,
    pub path: Seq<char>,
    pub status: int,
}

impl View for Task {
    type V = TaskV;

    open spec fn view(&self) -> TaskV {
        TaskV { domain: self.domain@, path: self.sub_domain@, status: self.status as int }
    }
}

impl DeepView for Task {
    type V = TaskV;

    open spec fn deep_view(&self) -> TaskV {
        self@
    }
}

/// Two tasks name the same crawl target exactly when both the domain and
/// the path agree; this pair is the dedup key.
pub open spec fn same_key(a: TaskV, b: TaskV) -> bool {
    a.domain == b.domain && a.path == b.path
}

impl Clone for Task {
    fn clone(&self) -> (res: Self)
        ensures
            res@ == self@,
    {
        Task {
            domain: self.domain.clone(),
            sub_domain: self.sub_domain.clone(),
            status: self.status,
        }
    }
}

impl Task {
    /// A freshly created task is pending.
    pub fn new(domain: String, sub_domain: String) -> (t: Self)
        ensures
            t@.domain == domain@,
            t@.path == sub_domain@,
            t@.status == 0,
    {
        Self { domain, sub_domain, status: 0 }
    }

    /// Derived URL for the task.
    pub fn get_url(&self) -> (url: String)
        ensures
            url@ == self@.domain + seq!['/'] + self@.path,
    {
        proof {
            reveal_strlit("/");
            assert("/"@ =~= seq!['/']);
        }
        let mut url = self.domain.clone();
        url.append("/");
        url.append(self.sub_domain.as_str());
        url
    }

    /// True exactly when `self` and `other` share the dedup key.
    pub fn key_matches(&self, other: &Task) -> (r: bool)
        ensures
            r == same_key(self@, other@),
    {
        self.domain == other.domain && self.sub_domain == other.sub_domain
    }
}

} // verus!
