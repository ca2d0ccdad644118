//! Where the history database lives: `$XDG_DATA_HOME/y1-clipboard/`, or
//! `~/.local/share/y1-clipboard/`, or `./y1-clipboard/`.

use vstd::prelude::*;
use crate::constants::{DB_DIR_NAME, DB_FILE_NAME};
use crate::text::{chars_of, has_prefix, string_of};

verus! {

/// `base` extended by the component `comp`, as `PathBuf::push` does on
/// Unix: an absolute component replaces the path; otherwise a `/` is put
/// between them unless `base` is empty or already ends in one.
pub open spec fn join_path(base: Seq<char>, comp: Seq<char>) -> Seq<char> {
    if has_prefix(comp, "/"@) {
        comp
    } else if base.len() > 0 && base.last() != '/' {
        base.push('/') + comp
    } else {
        base + comp
    }
}

/// The data home: `$XDG_DATA_HOME` when set and not empty (an empty value
/// counts as unset), else `$HOME/.local/share`, else `.`.
pub open spec fn data_home(xdg: Option<Seq<char>>, home: Option<Seq<char>>) -> Seq<char> {
    match xdg {
        Some(x) if x.len() > 0 => x,
        _ => match home {
            Some(h) => join_path(join_path(h, ".local"@), "share"@),
            None => "."@,
        },
    }
}

pub open spec fn opt_str_view(o: Option<&str>) -> Option<Seq<char>> {
    match o {
        Some(s) => Some(s@),
        None => None,
    }
}

/// `base` extended by `comp`.
pub fn join(base: &str, comp: &str) -> (r: String)
    ensures
        r@ == join_path(base@, comp@),
{
    let b = chars_of(base);
    let c = chars_of(comp);
    if c.len() > 0 && c[0] == '/' {
        proof {
            reveal_strlit("/");
            assert("/"@ =~= seq!['/']);
            assert(c@.subrange(0, 1) =~= "/"@);
        }
        return string_of(c.as_slice());
    }
    proof {
        reveal_strlit("/");
        if has_prefix(comp@, "/"@) {
            assert(comp@.subrange(0, 1)[0] == '/');
        }
    }
    let mut v = b.clone();
    if b.len() > 0 && b[b.len() - 1] != '/' {
        v.push('/');
    }
    let ghost head = v@;
    let mut i: usize = 0;
    while i < c.len()
        invariant
            i <= c@.len(),
            v@ == head + c@.take(i as int),
        decreases c@.len() - i,
    {
        v.push(c[i]);
        assert(head + c@.take(i + 1) =~= (head + c@.take(i as int)).push(c@[i as int]));
        i += 1;
    }
    assert(c@.take(i as int) =~= c@);
    string_of(v.as_slice())
}

/// The directory that holds the database, given `$XDG_DATA_HOME` and
/// `$HOME` when they are set.
pub fn data_dir(xdg: Option<&str>, home: Option<&str>) -> (r: String)
    ensures
        r@ == join_path(data_home(opt_str_view(xdg), opt_str_view(home)), DB_DIR_NAME@),
{
    let xdg_set = match xdg {
        Some(x) => !x.is_empty(),
        None => false,
    };
    let base = match xdg {
        Some(x) if xdg_set => x.to_owned(),
        _ => match home {
            Some(h) => {
                let local = join(h, ".local");
                join(local.as_str(), "share")
            },
            None => ".".to_owned(),
        },
    };
    join(base.as_str(), DB_DIR_NAME)
}

/// The database file inside the directory `dir`.
pub fn db_file_path(dir: &str) -> (r: String)
    ensures
        r@ == join_path(dir@, DB_FILE_NAME@),
{
    join(dir, DB_FILE_NAME)
}

/// Where the database directory lives: under a set, non-empty
/// `$XDG_DATA_HOME`; otherwise under `$HOME/.local/share`; otherwise under
/// the working directory. A component is joined with one `/`.
pub proof fn law_data_home(x: Seq<char>, h: Seq<char>, xdg: Option<Seq<char>>)
    ensures
        x.len() > 0 ==> data_home(Some(x), Some(h)) == x && data_home(Some(x), None) == x,
        (xdg is None || xdg == Some(Seq::<char>::empty())) && h.len() > 0 && h.last() != '/' ==> data_home(
            xdg,
            Some(h),
        ) == h + "/.local/share"@,
        (xdg is None || xdg == Some(Seq::<char>::empty())) ==> data_home(xdg, None) == "."@,
        h.len() > 0 && h.last() != '/' && x.len() > 0 && x[0] != '/' ==> join_path(h, x) == h + "/"@ + x,
        x.len() > 0 && x[0] == '/' ==> join_path(h, x) == x,
{
    reveal_strlit(".local");
    reveal_strlit("share");
    reveal_strlit("/");
    reveal_strlit("/.local/share");
    if h.len() > 0 && h.last() != '/' {
        let a = join_path(h, ".local"@);
        assert(!has_prefix(".local"@, "/"@)) by {
            assert(".local"@.subrange(0, 1)[0] == '.');
        }
        assert(a == h.push('/') + ".local"@);
        assert(a.last() == 'l');
        assert(!has_prefix("share"@, "/"@)) by {
            assert("share"@.subrange(0, 1)[0] == 's');
        }
        assert(join_path(a, "share"@) =~= h + "/.local/share"@);
    }
    if x.len() > 0 && x[0] != '/' {
        assert(!has_prefix(x, "/"@)) by {
            if has_prefix(x, "/"@) {
                assert(x.subrange(0, 1)[0] == x[0]);
            }
        }
        if h.len() > 0 && h.last() != '/' {
            assert(join_path(h, x) =~= h + "/"@ + x);
        }
    }
    if x.len() > 0 && x[0] == '/' {
        assert(x.subrange(0, 1) =~= "/"@);
    }
}

} // verus!
