use vstd::prelude::*;
use vstd::string::StringExecFns;

verus! {

/// The data directory used when the platform's standard one cannot be determined.
pub open spec fn fallback_data_dir() -> Seq<char> {
    seq!['.', 's', 'n', 'o', 'u', 't', '_', 'd', 'a', 't', 'a']
}

/// `name` placed inside the directory `base`, as `Path::join` does on Unix for a
/// relative `name`: a `/` goes between them unless `base` is empty or already ends with
/// one.
pub open spec fn join_path(base: Seq<char>, name: Seq<char>) -> Seq<char> {
    if base.len() == 0 {
        name
    } else if base.last() == '/' {
        base + name
    } else {
        base + seq!['/'] + name
    }
}

/// `d` is a data directory that the platform gives, through `directories::ProjectDirs`,
/// to the application named by `qualifier`, `organization` and `application`. Which
/// directory that is depends on the environment (the home directory, `XDG_DATA_HOME`),
/// so this is a relation between the names and a directory, not a function of them.
pub uninterp spec fn platform_data_dir(
    qualifier: Seq<char>,
    organization: Seq<char>,
    application: Seq<char>,
    d: Seq<char>,
) -> bool;

/// The qualifier under which Snout asks the platform for its directories.
pub open spec fn snout_qualifier() -> Seq<char> {
    seq!['c', 'o', 'm']
}

/// The organization name under which Snout asks the platform for its directories.
pub open spec fn snout_organization() -> Seq<char> {
    seq!['b', 'l', 'a', 'z', 'i', '2', '0', '0', '2']
}

/// The application name under which Snout asks the platform for its directories.
pub open spec fn snout_application() -> Seq<char> {
    seq!['S', 'n', 'o', 'u', 't']
}

/// `d` is a possible data directory of Snout: the fallback, or a non-empty directory
/// that the platform gives to Snout's names.
pub open spec fn snout_data_dir(d: Seq<char>) -> bool {
    ||| d == fallback_data_dir()
    ||| d.len() > 0 && platform_data_dir(
        snout_qualifier(),
        snout_organization(),
        snout_application(),
        d,
    )
}

/// The platform's data directory for an application, from
/// `directories::ProjectDirs::from(qualifier, organization, application)` and its
/// `data_dir`, as a string (non-UTF-8 parts replaced lossily); `None` when the crate
/// cannot determine a home directory. Which directory it is depends on the environment
/// (the home directory, `XDG_DATA_HOME`), so it gets no name of its own. The contract
/// claims that a directory it gives is one the platform gives to the names passed
/// (`platform_data_dir`) and is not empty: on every platform the crate builds it by
/// joining a project path to a non-empty base directory.
#[verifier::external_body]
fn project_data_dir(qualifier: &str, organization: &str, application: &str) -> (r: Option<String>)
    ensures
        r matches Some(d) ==> d@.len() > 0 && platform_data_dir(
            qualifier@,
            organization@,
            application@,
            d@,
        ),
{
    directories::ProjectDirs::from(qualifier, organization, application).map(
        |p| p.data_dir().to_string_lossy().into_owned(),
    )
}

/// The data directory to use, given the platform's one (if it could be determined).
pub fn choose_data_dir(platform_dir: Option<String>) -> (r: String)
    ensures
        r@ == match platform_dir {
            Some(d) => d@,
            None => fallback_data_dir(),
        },
{
    match platform_dir {
        Some(d) => d,
        None => {
            let r = String::from_str(".snout_data");
            proof {
                reveal_strlit(".snout_data");
            }
            assert(r@ =~= fallback_data_dir());
            r
        },
    }
}

/// Snout's data directory in the operating system's standard place (for instance
/// `~/.local/share/snout` on Linux), or `.snout_data` when that cannot be determined.
/// Creating the directory is left to the caller. Which of the two it is depends on the
/// environment; `choose_data_dir` states the choice. Either way the path is not empty,
/// so what is joined to it lies inside a directory.
pub fn data_dir() -> (r: String)
    ensures
        r@.len() > 0,
        snout_data_dir(r@),
{
    proof {
        reveal_strlit("com");
        reveal_strlit("blazi2002");
        reveal_strlit("Snout");
        assert("com"@ =~= snout_qualifier());
        assert("blazi2002"@ =~= snout_organization());
        assert("Snout"@ =~= snout_application());
    }
    choose_data_dir(project_data_dir("com", "blazi2002", "Snout"))
}

/// `name` placed inside the directory `base`.
pub fn path_join(base: &str, name: &str) -> (r: String)
    ensures
        r@ == join_path(base@, name@),
{
    let mut r = String::from_str(base);
    let n = base.unicode_len();
    if n > 0 && base.get_char(n - 1) != '/' {
        r.append("/");
        proof {
            reveal_strlit("/");
        }
    }
    r.append(name);
    r
}

/// The directory of the full-text index, `index` inside Snout's data directory. Which
/// data directory that is depends on the environment (see `data_dir`); it is never
/// empty, so the index never lands in the working directory itself.
pub fn index_dir() -> (r: String)
    ensures
        exists|d: Seq<char>|
            snout_data_dir(d) && d.len() > 0 && r@ == join_path(d, seq!['i', 'n', 'd', 'e', 'x']),
{
    let d = data_dir();
    let r = path_join(d.as_str(), "index");
    proof {
        reveal_strlit("index");
    }
    assert(r@ == join_path(d@, seq!['i', 'n', 'd', 'e', 'x']));
    r
}

/// The file of the semantic embeddings, `embeddings.jsonl` inside Snout's data directory.
/// Which data directory that is depends on the environment (see `data_dir`); it is
/// never empty.
pub fn embeddings_path() -> (r: String)
    ensures
        exists|d: Seq<char>| snout_data_dir(d) && d.len() > 0 && r@ == join_path(
            d,
            seq!['e', 'm', 'b', 'e', 'd', 'd', 'i', 'n', 'g', 's', '.', 'j', 's', 'o', 'n', 'l'],
        ),
{
    let d = data_dir();
    let r = path_join(d.as_str(), "embeddings.jsonl");
    proof {
        reveal_strlit("embeddings.jsonl");
    }
    assert(r@ == join_path(
        d@,
        seq!['e', 'm', 'b', 'e', 'd', 'd', 'i', 'n', 'g', 's', '.', 'j', 's', 'o', 'n', 'l'],
    ));
    r
}

} // verus!
