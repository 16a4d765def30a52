//! What holds of the names of files.
use vstd::prelude::*;

use crate::paths::{below, directory_of, included_path, is_absolute};

verus! {

proof fn lemma_directory_before(dir: Seq<char>, name: Seq<char>)
    requires
        !name.contains('/'),
    ensures
        directory_of(dir + "/"@ + name) == directory_of(dir + "/"@),
    decreases name.len(),
{
    if name.len() == 0 {
        assert(dir + "/"@ + name =~= dir + "/"@);
    } else {
        let whole = dir + "/"@ + name;
        assert(whole.drop_last() =~= dir + "/"@ + name.drop_last());
        assert(whole.last() == name.last());
        assert(name.contains(name.last()));
        assert(!name.drop_last().contains('/')) by {
            if name.drop_last().contains('/') {
                let i = choose|i: int| 0 <= i < name.drop_last().len() && name.drop_last()[i] == '/';
                assert(name[i] == '/');
            }
        }
        lemma_directory_before(dir, name.drop_last());
    }
}

/// The directory of a file is what stands before the last slash of its name; the slash itself where
/// nothing does; and nothing where there is no slash.
pub proof fn a_directory_is_what_comes_before_the_last_slash(dir: Seq<char>, name: Seq<char>)
    requires
        !name.contains('/'),
    ensures
        dir.len() > 0 ==> directory_of(dir + "/"@ + name) == dir,
        directory_of("/"@ + name) == "/"@,
        directory_of(name).len() == 0,
    decreases name.len(),
{
    reveal_strlit("/");
    lemma_directory_before(dir, name);
    assert((dir + "/"@).drop_last() =~= dir);
    assert((dir + "/"@).last() == '/');
    let none = Seq::<char>::empty();
    lemma_directory_before(none, name);
    assert(none + "/"@ + name =~= "/"@ + name);
    assert(none + "/"@ =~= "/"@);
    if name.len() > 0 {
        assert(name.contains(name.last()));
        assert(!name.drop_last().contains('/')) by {
            if name.drop_last().contains('/') {
                let i = choose|i: int| 0 <= i < name.drop_last().len() && name.drop_last()[i] == '/';
                assert(name[i] == '/');
            }
        }
        a_directory_is_what_comes_before_the_last_slash(dir, name.drop_last());
    }
}

/// An included name that does not begin with a slash is looked up next to the file that includes
/// it.
pub proof fn includes_lie_next_to_the_including_file(
    dir: Seq<char>,
    file: Seq<char>,
    name: Seq<char>,
)
    requires
        !file.contains('/'),
        name.len() > 0 ==> name[0] != '/',
    ensures
        dir.len() > 0 && dir.last() != '/' ==> included_path(dir + "/"@ + file, name) == dir + "/"@
            + name,
        dir.len() > 0 && dir.last() == '/' ==> included_path(dir + "/"@ + file, name) == dir + name,
        included_path("/"@ + file, name) == "/"@ + name,
        included_path(file, name) == name,
{
    reveal_strlit("/");
    a_directory_is_what_comes_before_the_last_slash(dir, file);
    assert(directory_of(file) + name =~= name);
}

/// An included name that begins with a slash stands for itself, whatever file includes it.
pub proof fn absolute_includes_stand_for_themselves(file: Seq<char>, name: Seq<char>)
    requires
        name.len() > 0,
        name[0] == '/',
    ensures
        included_path(file, name) == name,
{
}

/// A name is absolute just where it begins with a slash, and a name that is not is put behind the
/// directory, with a slash between the two unless there is one or no directory.
pub proof fn names_go_below_directories(dir: Seq<char>, name: Seq<char>)
    ensures
        is_absolute(name) <==> (name.len() > 0 && name[0] == '/'),
        below(dir, name) == (if name.len() > 0 && name[0] == '/' {
            name
        } else if dir.len() > 0 && dir.last() != '/' {
            dir + "/"@ + name
        } else {
            dir + name
        }),
{
}

} // verus!
