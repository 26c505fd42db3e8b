//! Where the programs keep their files.
use vstd::prelude::*;

use crate::text;

verus! {

/// The path `rel` as seen from the directory `base`. An absolute `rel` stands for itself.
pub open spec fn joined(base: Seq<char>, rel: Seq<char>) -> Seq<char> {
    if rel.len() > 0 && rel[0] == '/' {
        rel
    } else if base.len() == 0 || base.last() == '/' {
        base + rel
    } else {
        base.push('/') + rel
    }
}

/// The home directory: `/tmp` where none is known.
pub open spec fn home_dir(home: Option<String>) -> Seq<char> {
    match home {
        Some(h) => h@,
        None => "/tmp"@,
    }
}

/// The data directory, below the home directory `home`.
pub open spec fn data_dir_below(home: Seq<char>) -> Seq<char> {
    joined(home, ".local/share/cmd-transformer"@)
}

/// The path `rel` as seen from the directory `base`. An absolute `rel` stands for itself.
pub fn join(base: &str, rel: &str) -> (r: String)
    ensures
        r@ == joined(base@, rel@),
{
    let below: Vec<char> = text::chars_of(rel);
    if below.len() > 0 && below[0] == '/' {
        return rel.to_owned();
    }
    let above: Vec<char> = text::chars_of(base);
    let mut r: String = base.to_owned();
    if above.len() > 0 && above[above.len() - 1] != '/' {
        r.push('/');
    }
    r.push_str(rel);
    r
}

/// The directory that holds the history and the trained model, given what the environment says
/// of the home directory.
pub fn data_dir(home: &Option<String>) -> (dir: String)
    ensures
        dir@ == data_dir_below(home_dir(*home)),
{
    match home {
        Some(h) => join(h.as_str(), ".local/share/cmd-transformer"),
        None => join("/tmp", ".local/share/cmd-transformer"),
    }
}

/// The history database.
pub fn db_path(home: &Option<String>) -> (path: String)
    ensures
        path@ == joined(data_dir_below(home_dir(*home)), "history.db"@),
{
    join(data_dir(home).as_str(), "history.db")
}

/// The weights of the trained model.
pub fn weights_path(home: &Option<String>) -> (path: String)
    ensures
        path@ == joined(data_dir_below(home_dir(*home)), "model.safetensors"@),
{
    join(data_dir(home).as_str(), "model.safetensors")
}

/// The vocabulary of the trained model.
pub fn vocab_path(home: &Option<String>) -> (path: String)
    ensures
        path@ == joined(data_dir_below(home_dir(*home)), "vocab.txt"@),
{
    join(data_dir(home).as_str(), "vocab.txt")
}

/// The hyperparameters of the trained model.
pub fn config_path(home: &Option<String>) -> (path: String)
    ensures
        path@ == joined(data_dir_below(home_dir(*home)), "config.txt"@),
{
    join(data_dir(home).as_str(), "config.txt")
}

/// Going down name by name leads to the same directory as going down in one step, and a file of
/// the data directory has the path of that directory, a `'/'` and its name.
pub proof fn law_data_dir_by_steps(home: Seq<char>, file: Seq<char>)
    ensures
        joined(joined(joined(home, ".local"@), "share"@), "cmd-transformer"@) == data_dir_below(
            home,
        ),
        (file.len() > 0 && file[0] != '/') ==> joined(data_dir_below(home), file)
            == data_dir_below(home).push('/') + file,
{
    reveal_strlit(".local");
    reveal_strlit("share");
    reveal_strlit("cmd-transformer");
    reveal_strlit(".local/share/cmd-transformer");
    let start = if home.len() == 0 || home.last() == '/' {
        home
    } else {
        home.push('/')
    };
    let one = joined(home, ".local"@);
    assert(one == start + ".local"@);
    assert(one.last() == 'l');
    let two = joined(one, "share"@);
    assert(two == one.push('/') + "share"@);
    assert(two.last() == 'e');
    let three = joined(two, "cmd-transformer"@);
    assert(three == two.push('/') + "cmd-transformer"@);
    assert(".local"@.push('/') + "share"@.push('/') + "cmd-transformer"@
        == ".local/share/cmd-transformer"@);
    assert(three == start + (".local"@.push('/') + "share"@.push('/') + "cmd-transformer"@));
    assert(data_dir_below(home) == start + ".local/share/cmd-transformer"@);
    assert(data_dir_below(home).last() == 'r');
}

/// A relative path follows its directory behind one `'/'`; a directory that is empty or ends in
/// `'/'` needs none. An absolute path is left as it is.
pub proof fn law_joined(base: Seq<char>, rel: Seq<char>)
    requires
        rel.len() > 0,
    ensures
        rel[0] == '/' ==> joined(base, rel) == rel,
        rel[0] != '/' && base.len() == 0 ==> joined(base, rel) == rel,
        rel[0] != '/' && base.len() > 0 && base[base.len() - 1] == '/' ==> joined(base, rel) == base
            + rel,
        rel[0] != '/' && base.len() > 0 && base[base.len() - 1] != '/' ==> joined(base, rel) == base
            + seq!['/'] + rel,
{
    if base.len() == 0 {
        assert(base + rel == rel);
    }
    assert(base.push('/') + rel == base + seq!['/'] + rel);
}

/// The data directory is `.local/share/cmd-transformer` below the home directory, whichever that
/// is, and below `/tmp` where none is known.
pub proof fn law_data_dir(home: Option<String>)
    ensures
        ({
            let dir = data_dir_below(home_dir(home));
            let below = ".local/share/cmd-transformer"@;
            match home {
                Some(h) => if h@.len() == 0 || h@[h@.len() - 1] == '/' {
                    dir == h@ + below
                } else {
                    dir == h@ + seq!['/'] + below
                },
                None => dir == "/tmp"@ + seq!['/'] + below,
            }
        }),
{
    reveal_strlit(".local/share/cmd-transformer");
    reveal_strlit("/tmp");
    let base = home_dir(home);
    law_joined(base, ".local/share/cmd-transformer"@);
    if base.len() == 0 {
        assert(base + ".local/share/cmd-transformer"@ == ".local/share/cmd-transformer"@);
    }
}

} // verus!
