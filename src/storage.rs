use vstd::prelude::*;

use crate::codec::date_text;
use crate::text::{from_chars, push_str, to_chars};
use crate::time::Date;

verus! {

/// `b` placed under directory `a`, as `Path::join` does for a relative `b`.
pub open spec fn join(a: Seq<char>, b: Seq<char>) -> Seq<char> {
    if a.len() == 0 {
        b
    } else if a.last() == '/' {
        a + b
    } else {
        a + "/"@ + b
    }
}

/// Where the last `/` stands, or -1.
pub open spec fn last_slash(p: Seq<char>) -> int
    decreases p.len(),
{
    if p.len() == 0 {
        -1
    } else if p.last() == '/' {
        p.len() - 1
    } else {
        last_slash(p.drop_last())
    }
}

/// The directory that holds `p`, as `Path::parent` gives it for a path
/// without repeated separators; none for the root or the empty path.
pub open spec fn parent_of(p: Seq<char>) -> Option<Seq<char>> {
    if p.len() == 0 || p == "/"@ {
        None
    } else {
        let q = if p.last() == '/' {
            p.drop_last()
        } else {
            p
        };
        let k = last_slash(q);
        if k < 0 {
            Some(Seq::empty())
        } else if k == 0 {
            Some("/"@)
        } else {
            Some(q.subrange(0, k))
        }
    }
}

pub fn join_path(a: &str, b: &str) -> (r: String)
    ensures
        r@ == join(a@, b@),
{
    let av = to_chars(a);
    let mut out: Vec<char> = Vec::new();
    push_str(&mut out, a);
    if av.len() > 0 && av[av.len() - 1] != '/' {
        push_str(&mut out, "/");
    }
    push_str(&mut out, b);
    proof {
        reveal_strlit("/");
    }
    assert(out@ =~= join(a@, b@));
    from_chars(out.as_slice())
}

/// The directory that holds `p`, if any.
pub fn parent_path(p: &str) -> (r: Option<String>)
    ensures
        r matches Some(q) ==> parent_of(p@) == Some(q@) && q@.len() < p@.len(),
        r is None ==> parent_of(p@) is None,
{
    let v = to_chars(p);
    proof {
        reveal_strlit("/");
    }
    if v.len() == 0 || (v.len() == 1 && v[0] == '/') {
        assert(v.len() == 1 ==> v@ =~= "/"@);
        return None;
    }
    assert(v@ != "/"@);
    let n = if v[v.len() - 1] == '/' {
        v.len() - 1
    } else {
        v.len()
    };
    let ghost q = v@.subrange(0, n as int);
    assert(q =~= if v@.last() == '/' {
        v@.drop_last()
    } else {
        v@
    });
    let mut k = n;
    assert(q.subrange(0, n as int) =~= q);
    while k > 0 && v[k - 1] != '/'
        invariant
            k <= n <= v.len(),
            q == v@.subrange(0, n as int),
            last_slash(q) == last_slash(q.subrange(0, k as int)),
        decreases k,
    {
        assert(q.subrange(0, k as int).drop_last() =~= q.subrange(0, k - 1));
        k = k - 1;
    }
    assert(q.subrange(0, n as int) =~= q);
    if k == 0 {
        assert(last_slash(q.subrange(0, 0)) == -1);
        return Some(String::new());
    }
    assert(q.subrange(0, k as int).last() == '/');
    if k == 1 {
        return Some(String::from_str("/"));
    }
    let s = crate::time::slice_chars(&v, 0, k - 1);
    assert(s@ =~= q.subrange(0, k - 1));
    Some(from_chars(s.as_slice()))
}

/// Why no storage could be set up.
#[derive(Clone, Copy, Debug, PartialEq, Eq, Structural)]
pub enum StorageError {
    /// No directory from the start path up holds a `.faff` directory.
    NoFaffDirectory,
}

/// Where a workspace's files are: the directory that holds `.faff`, and `.faff` itself.
#[derive(Debug)]
pub struct FileSystemStorage {
    pub faff_root: String,
    pub faff_dir: String,
}

impl FileSystemStorage {
    /// Searches from `start_path` up, directory by directory, for one whose
    /// `.faff` is a directory; `is_dir` says whether a path is one.
    pub fn from_path<F: Fn(String) -> bool>(start_path: String, is_dir: F) -> (r: Result<
        FileSystemStorage,
        StorageError,
    >)
        requires
            forall|s: String| call_requires(is_dir, (s,)),
        ensures
            r matches Ok(s) ==> s.faff_dir@ == join(s.faff_root@, ".faff"@) && exists|d: String|
                d@ == s.faff_dir@ && call_ensures(is_dir, (d,), true),
    {
        let faff_root = Self::find_faff_root(start_path, is_dir)?;
        let faff_dir = join_path(faff_root.as_str(), ".faff");
        Ok(FileSystemStorage { faff_root, faff_dir })
    }

    /// The first directory from `start_path` up whose `.faff` is a directory.
    pub fn find_faff_root<F: Fn(String) -> bool>(start_path: String, is_dir: F) -> (r: Result<
        String,
        StorageError,
    >)
        requires
            forall|s: String| call_requires(is_dir, (s,)),
        ensures
            r matches Ok(root) ==> exists|d: String|
                d@ == join(root@, ".faff"@) && call_ensures(is_dir, (d,), true),
    {
        let mut current = start_path;
        loop
            invariant
                forall|s: String| call_requires(is_dir, (s,)),
            decreases current@.len(),
        {
            let probe = join_path(current.as_str(), ".faff");
            if is_dir(probe) {
                return Ok(current);
            }
            match parent_path(current.as_str()) {
                Some(p) => {
                    current = p;
                },
                None => {
                    return Err(StorageError::NoFaffDirectory);
                },
            }
        }
    }

    pub fn log_dir(&self) -> (r: String)
        ensures
            r@ == join(self.faff_dir@, "logs"@),
    {
        join_path(self.faff_dir.as_str(), "logs")
    }

    pub fn plan_dir(&self) -> (r: String)
        ensures
            r@ == join(self.faff_dir@, "plans"@),
    {
        join_path(self.faff_dir.as_str(), "plans")
    }

    pub fn identity_dir(&self) -> (r: String)
        ensures
            r@ == join(self.faff_dir@, "keys"@),
    {
        join_path(self.faff_dir.as_str(), "keys")
    }

    pub fn timesheet_dir(&self) -> (r: String)
        ensures
            r@ == join(self.faff_dir@, "timesheets"@),
    {
        join_path(self.faff_dir.as_str(), "timesheets")
    }

    pub fn config_file(&self) -> (r: String)
        ensures
            r@ == join(self.faff_dir@, "config.toml"@),
    {
        join_path(self.faff_dir.as_str(), "config.toml")
    }

    /// The log file of a date: `<log dir>/YYYY-MM-DD.toml`.
    pub fn log_file_path(&self, date: Date) -> (r: String)
        requires
            date.wf(),
        ensures
            r@ == join(join(self.faff_dir@, "logs"@), date_text(date) + ".toml"@),
    {
        let dir = self.log_dir();
        let mut name: Vec<char> = Vec::new();
        crate::codec::push_date_text(&mut name, date);
        push_str(&mut name, ".toml");
        assert(name@ =~= date_text(date) + ".toml"@);
        let n = from_chars(name.as_slice());
        join_path(dir.as_str(), n.as_str())
    }
}

} // verus!
