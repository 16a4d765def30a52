//! Names of files.
use vstd::prelude::*;
use vstd::string::*;

use crate::text::characters;

verus! {

/// How names of files are put together.
#[derive(Clone, Copy, Debug, PartialEq, Eq, Structural)]
pub enum PathStyle {
    /// Slashes stand between the parts, and in front of a name that is absolute.
    Slashes,
    /// In some other way, which the host knows.
    Host,
}

/// The directory of the file with this canonical name: what stands before the last slash, or
/// the slash itself where it is the first character, or nothing where there is no slash.
pub open spec fn directory_of(file: Seq<char>) -> Seq<char>
    decreases file.len(),
{
    if file.len() == 0 {
        file
    } else if file.last() == '/' {
        if file.len() == 1 {
            file
        } else {
            file.drop_last()
        }
    } else {
        directory_of(file.drop_last())
    }
}

/// The name stands for itself, whatever directory it is looked up from.
pub open spec fn is_absolute(name: Seq<char>) -> bool {
    name.len() > 0 && name[0] == '/'
}

/// `name` as seen from the directory `dir`: itself where it is absolute, else below `dir`.
pub open spec fn below(dir: Seq<char>, name: Seq<char>) -> Seq<char> {
    if is_absolute(name) {
        name
    } else if dir.len() == 0 || dir.last() == '/' {
        dir + name
    } else {
        dir + "/"@ + name
    }
}

/// The file that `name` stands for in an include list of `file`, with slashes between the parts.
pub open spec fn included_path(file: Seq<char>, name: Seq<char>) -> Seq<char> {
    below(directory_of(file), name)
}

/// The directory of the file with this canonical name.
fn directory(file: &str) -> (dir: &str)
    ensures
        dir@ == directory_of(file@),
{
    let chars = characters(file);
    let mut n: usize = chars.len();
    assert(file@.take(n as int) =~= file@);
    while n > 0
        invariant
            chars@ == file@,
            n <= chars.len(),
            directory_of(file@) == directory_of(file@.take(n as int)),
        decreases n,
    {
        let ghost head = file@.take(n as int);
        assert(head.last() == chars@[n - 1]);
        assert(head.drop_last() =~= file@.take(n - 1));
        if chars[n - 1] == '/' {
            let end: usize = if n == 1 {
                1
            } else {
                n - 1
            };
            assert(file@.subrange(0, end as int) =~= file@.take(end as int));
            return file.substring_char(0, end);
        }
        n = n - 1;
    }
    assert(file@.subrange(0, 0) =~= file@.take(0));
    file.substring_char(0, 0)
}

/// The path of the file that `name` stands for in an include list of `file`, with slashes between
/// the parts.
pub fn include_path(file: &str, name: &str) -> (path: String)
    ensures
        path@ == included_path(file@, name@),
{
    let name_chars = characters(name);
    if name_chars.len() > 0 && name_chars[0] == '/' {
        return name.to_string();
    }
    let dir = directory(file);
    let dir_chars = characters(dir);
    if dir_chars.len() == 0 || dir_chars[dir_chars.len() - 1] == '/' {
        dir.to_string().concat(name)
    } else {
        dir.to_string().concat("/").concat(name)
    }
}

} // verus!
