use vstd::prelude::*;

verus! {

/// Where and how the version-control tool is asked for the log.
pub struct GitProxy {
    working_dir: String,
}

/// The arguments of the log request: per-file line counts, strict ISO dates, the header
/// format `--<hash>--<date>--<author>--<summary>`, no rename detection, and the cutoff.
pub open spec fn log_args_spec(after_date: Seq<char>) -> Seq<Seq<char>> {
    seq![
        "log"@,
        "--numstat"@,
        "--date=iso-strict"@,
        "--pretty=format:--%h--%cd--%aN--%s"@,
        "--no-renames"@,
        "--after"@,
        after_date,
    ]
}

impl GitProxy {
    pub closed spec fn dir(&self) -> Seq<char> {
        self.working_dir@
    }

    pub fn new(working_dir: &str) -> (r: Self)
        ensures
            r.dir() == working_dir@,
    {
        GitProxy { working_dir: String::from_str(working_dir) }
    }

    /// The repository the log is read from.
    pub fn working_dir(&self) -> (r: &str)
        ensures
            r@ == self.dir(),
    {
        self.working_dir.as_str()
    }

    /// The arguments that ask for the log of commits after `after_date`.
    pub fn log_args(&self, after_date: &str) -> (r: Vec<String>)
        ensures
            r@.map_values(|a: String| a@) == log_args_spec(after_date@),
    {
        let mut v: Vec<String> = Vec::new();
        v.push(String::from_str("log"));
        v.push(String::from_str("--numstat"));
        v.push(String::from_str("--date=iso-strict"));
        v.push(String::from_str("--pretty=format:--%h--%cd--%aN--%s"));
        v.push(String::from_str("--no-renames"));
        v.push(String::from_str("--after"));
        v.push(String::from_str(after_date));
        assert(v@.map_values(|a: String| a@) =~= log_args_spec(after_date@));
        v
    }
}

} // verus!
