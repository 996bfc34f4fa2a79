//! Where the database and the control socket live.

use vstd::prelude::*;
use vstd::string::StrSliceExecFns;

verus! {

/// `comp` appended to the path `base` as a relative component: directly when
/// `base` is empty or already ends in `/`, after a `/` otherwise.
pub open spec fn joined(base: Seq<char>, comp: Seq<char>) -> Seq<char> {
    if base.len() == 0 {
        comp
    } else if base.last() == '/' {
        base + comp
    } else {
        base + seq!['/'] + comp
    }
}

/// `PathBuf::join` of a relative component, on text.
fn join_path(base: &str, comp: &str) -> (r: String)
    ensures
        r@ == joined(base@, comp@),
{
    let n = base.unicode_len();
    let mut r = String::from_str(base);
    if n > 0 && base.get_char(n - 1) != '/' {
        crate::text::push_char(&mut r, '/');
    }
    r.append(comp);
    proof {
        if n > 0 && base@.last() != '/' {
            assert(r@ =~= base@ + seq!['/'] + comp@);
        }
    }
    r
}

/// The directory the control socket lives in: the runtime directory when one is
/// set, else `.local/share/clipwise` under the home directory, else `/tmp`.
pub open spec fn socket_dir(runtime_dir: Option<Seq<char>>, home: Option<Seq<char>>) -> Seq<char> {
    match runtime_dir {
        Some(d) => d,
        None => match home {
            Some(h) => joined(joined(joined(h, ".local"@), "share"@), "clipwise"@),
            None => "/tmp"@,
        },
    }
}

/// The text of an optional string.
pub open spec fn text_of(o: Option<&str>) -> Option<Seq<char>> {
    match o {
        Some(s) => Some(s@),
        None => None,
    }
}

/// The path of the control socket, `clipwise.sock` in `socket_dir`, given the
/// values of `XDG_RUNTIME_DIR` and `HOME` (`None` when unset).
pub fn socket_path_for(runtime_dir: Option<&str>, home: Option<&str>) -> (r: String)
    ensures
        r@ == joined(socket_dir(text_of(runtime_dir), text_of(home)), "clipwise.sock"@),
{
    let dir = match runtime_dir {
        Some(d) => String::from_str(d),
        None => match home {
            Some(h) => {
                let a = join_path(h, ".local");
                let b = join_path(a.as_str(), "share");
                join_path(b.as_str(), "clipwise")
            },
            None => String::from_str("/tmp"),
        },
    };
    join_path(dir.as_str(), "clipwise.sock")
}

/// The path of the database under the home directory `home`.
pub fn db_path_for(home: &str) -> (r: String)
    ensures
        r@ == joined(home@, ".local/share/clipwise/db"@),
{
    join_path(home, ".local/share/clipwise/db")
}

/// Joining keeps the base as it is and ends with the component, with exactly
/// one `/` between them when the base is not empty (the base's own trailing
/// `/`, or one added), and nothing between them when it is.
pub proof fn law_join_keeps_both(base: Seq<char>, comp: Seq<char>)
    ensures
        joined(base, comp).subrange(0, base.len() as int) == base,
        joined(base, comp).subrange(joined(base, comp).len() - comp.len(), joined(base, comp).len() as int) == comp,
        base.len() == 0 ==> joined(base, comp) == comp,
        base.len() > 0 && base.last() == '/' ==> joined(base, comp).len() == base.len() + comp.len(),
        base.len() > 0 && base.last() != '/' ==> joined(base, comp).len() == base.len() + comp.len() + 1
            && joined(base, comp)[base.len() as int] == '/',
{
    let j = joined(base, comp);
    assert(j.subrange(0, base.len() as int) =~= base);
    assert(j.subrange(j.len() - comp.len(), j.len() as int) =~= comp);
}

} // verus!
