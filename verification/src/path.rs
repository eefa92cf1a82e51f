//! The names in a path. Archives are named in one way on every machine: the pieces
//! of a path stand between slashes, and a backslash is a character like others.

use vstd::prelude::*;

use crate::text::{chars_of, string_of};

verus! {

/// The pieces a path falls into at its slashes.
pub open spec fn pieces(path: Seq<char>) -> Seq<Seq<char>>
    decreases path.len(),
{
    if path.len() == 0 {
        seq![Seq::empty()]
    } else {
        let before = pieces(path.drop_last());
        if path.last() == '/' {
            before.push(Seq::empty())
        } else {
            before.drop_last().push(before.last().push(path.last()))
        }
    }
}

/// Whether a piece of a path names anything: an empty piece and a lone dot do
/// not.
pub open spec fn names_something(piece: Seq<char>) -> bool {
    piece.len() > 0 && piece != seq!['.']
}

/// Whether a name stands for the directory above.
pub open spec fn is_parent(name: Seq<char>) -> bool {
    name == seq!['.', '.']
}

/// The last piece among several that names something.
pub open spec fn last_name(pieces: Seq<Seq<char>>) -> Option<Seq<char>>
    decreases pieces.len(),
{
    if pieces.len() == 0 {
        None
    } else if names_something(pieces.last()) {
        Some(pieces.last())
    } else {
        last_name(pieces.drop_last())
    }
}

/// The last name in a path, unless it stands for the directory above.
pub open spec fn file_name_of(path: Seq<char>) -> Option<Seq<char>> {
    match last_name(pieces(path)) {
        Some(name) => if is_parent(name) {
            None
        } else {
            Some(name)
        },
        None => None,
    }
}

/// Where the last dot of a name stands, or zero for none.
pub open spec fn last_dot(name: Seq<char>) -> nat
    decreases name.len(),
{
    if name.len() == 0 {
        0
    } else if name.last() == '.' {
        (name.len() - 1) as nat
    } else {
        last_dot(name.drop_last())
    }
}

/// What a name has behind its last dot, a dot in front not counting.
pub open spec fn extension_of(name: Seq<char>) -> Option<Seq<char>> {
    if last_dot(name) == 0 {
        None
    } else {
        Some(name.skip((last_dot(name) + 1) as int))
    }
}

/// What a name has before its last dot, a dot in front not counting.
pub open spec fn stem_of(name: Seq<char>) -> Seq<char> {
    if last_dot(name) == 0 {
        name
    } else {
        name.take(last_dot(name) as int)
    }
}

/// The pieces as they are held.
pub open spec fn views(pieces: Seq<Vec<char>>) -> Seq<Seq<char>> {
    Seq::new(pieces.len(), |i: int| pieces[i]@)
}

/// Splits a path at its slashes.
pub fn split(path: &str) -> (parts: Vec<Vec<char>>)
    ensures
        views(parts@) == pieces(path@),
        parts@.len() > 0,
{
    let characters = chars_of(path);
    let mut done: Vec<Vec<char>> = Vec::new();
    let mut current: Vec<char> = Vec::new();
    let mut index: usize = 0;
    assert(views(done@).push(current@) =~= pieces(path@.take(0)));
    while index < characters.len()
        invariant
            characters@ == path@,
            index <= characters@.len(),
            views(done@).push(current@) == pieces(path@.take(index as int)),
        decreases characters@.len() - index,
    {
        let character: char = characters[index];
        let ghost before = views(done@).push(current@);
        proof {
            assert(path@.take(index + 1).drop_last() =~= path@.take(index as int));
            assert(before.drop_last() =~= views(done@));
        }
        if character == '/' {
            let ghost held = done@;
            let ghost piece = current@;
            done.push(current);
            current = Vec::new();
            assert(views(done@) =~= views(held).push(piece));
            assert(current@ =~= Seq::<char>::empty());
        } else {
            current.push(character);
        }
        assert(views(done@).push(current@) =~= pieces(path@.take(index + 1)));
        index = index + 1;
    }
    assert(path@.take(index as int) =~= path@);
    let ghost held = done@;
    let ghost piece = current@;
    done.push(current);
    assert(views(done@) =~= views(held).push(piece));
    done
}

/// Whether a piece of a path names anything.
pub fn names(piece: &Vec<char>) -> (named: bool)
    ensures
        named == names_something(piece@),
{
    if piece.len() == 0 {
        false
    } else if piece.len() == 1 && piece[0] == '.' {
        assert(piece@ =~= seq!['.']);
        false
    } else {
        assert(seq!['.'].len() == 1 && seq!['.'][0] == '.');
        true
    }
}

/// Whether a name stands for the directory above.
pub fn parent(name: &Vec<char>) -> (above: bool)
    ensures
        above == is_parent(name@),
{
    if name.len() == 2 && name[0] == '.' && name[1] == '.' {
        assert(name@ =~= seq!['.', '.']);
        true
    } else {
        assert(seq!['.', '.'].len() == 2 && seq!['.', '.'][0] == '.' && seq!['.', '.'][1] == '.');
        false
    }
}

/// The last name in a path, unless it stands for the directory above.
pub fn file_name(path: &str) -> (name: Option<Vec<char>>)
    ensures
        match file_name_of(path@) {
            Some(expected) => name matches Some(found) && found@ == expected,
            None => name is None,
        },
{
    let mut parts = split(path);
    while parts.len() > 0
        invariant
            last_name(pieces(path@)) == last_name(views(parts@)),
        decreases parts@.len(),
    {
        let ghost before = parts@;
        match parts.pop() {
            Some(piece) => {
                assert(views(before).drop_last() =~= views(parts@));
                if names(&piece) {
                    return if parent(&piece) {
                        None
                    } else {
                        Some(piece)
                    };
                }
            },
            None => return None,
        }
    }
    None
}

/// Where the last dot of a name stands, or zero for none.
fn dot(name: &Vec<char>) -> (index: usize)
    ensures
        index == last_dot(name@),
        index <= name@.len(),
        index > 0 ==> index < name@.len(),
{
    let mut length: usize = name.len();
    assert(name@.take(length as int) =~= name@);
    while length > 0
        invariant
            length <= name@.len(),
            last_dot(name@) == last_dot(name@.take(length as int)),
        decreases length,
    {
        assert(name@.take(length as int).drop_last() =~= name@.take(length - 1));
        if name[length - 1] == '.' {
            return length - 1;
        }
        length = length - 1;
    }
    0
}

/// A stretch of a name.
pub fn stretch(name: &Vec<char>, from: usize, to: usize) -> (part: Vec<char>)
    requires
        from <= to <= name@.len(),
    ensures
        part@ == name@.subrange(from as int, to as int),
{
    let mut part: Vec<char> = Vec::new();
    let mut index: usize = from;
    while index < to
        invariant
            from <= index <= to <= name@.len(),
            part@ == name@.subrange(from as int, index as int),
        decreases to - index,
    {
        part.push(name[index]);
        assert(part@ =~= name@.subrange(from as int, index + 1));
        index = index + 1;
    }
    part
}

/// What a name has behind its last dot, a dot in front not counting.
pub fn extension(name: &Vec<char>) -> (found: Option<Vec<char>>)
    ensures
        match extension_of(name@) {
            Some(expected) => found matches Some(behind) && behind@ == expected,
            None => found is None,
        },
{
    let index: usize = dot(name);
    let length: usize = name.len();
    if index == 0 {
        None
    } else {
        let behind = stretch(name, index + 1, length);
        assert(behind@ =~= name@.skip(index + 1));
        Some(behind)
    }
}

/// What a name has before its last dot, a dot in front not counting.
pub fn stem(name: &Vec<char>) -> (before: Vec<char>)
    ensures
        before@ == stem_of(name@),
{
    let index: usize = dot(name);
    let end: usize = if index == 0 {
        name.len()
    } else {
        index
    };
    let before = stretch(name, 0, end);
    assert(before@ =~= stem_of(name@));
    before
}

/// A path up to its last name, without the slashes and lone dots behind it.
pub open spec fn named_part(path: Seq<char>) -> Seq<char>
    decreases path.len(),
{
    if path.len() == 0 {
        path
    } else if path.last() == '/' || (path.last() == '.' && (path.len() == 1 || path[path.len() - 2]
        == '/')) {
        named_part(path.drop_last())
    } else {
        path
    }
}

/// The directory that a last name stands in, without the slashes and lone dots
/// behind it, but for one that the path begins with.
pub open spec fn directory(path: Seq<char>) -> Seq<char>
    decreases path.len(),
{
    if path.len() < 2 {
        path
    } else if path.last() == '/' || (path.last() == '.' && path[path.len() - 2] == '/') {
        directory(path.drop_last())
    } else {
        path
    }
}

/// The directory that a path lies in, if it lies in one.
pub open spec fn parent_of(path: Seq<char>) -> Option<Seq<char>> {
    match last_name(pieces(path)) {
        Some(name) => Some(directory(named_part(path).take(named_part(path).len() - name.len()))),
        None => if path.len() > 0 && path[0] == '.' {
            Some(Seq::empty())
        } else {
            None
        },
    }
}

/// A path with more behind its last name, or the same where it has no file name.
pub open spec fn lengthened(path: Seq<char>, suffix: Seq<char>) -> Seq<char> {
    match file_name_of(path) {
        Some(_) => named_part(path) + suffix,
        None => path,
    }
}

/// A path inside another, or by itself where it starts at the root.
pub open spec fn joined(root: Seq<char>, file: Seq<char>) -> Seq<char> {
    if file.len() > 0 && file[0] == '/' {
        file
    } else if root.len() == 0 || root.last() == '/' {
        root + file
    } else {
        root + seq!['/'] + file
    }
}

/// The last piece of a path is its end.
proof fn lemma_last_piece(path: Seq<char>)
    ensures
        pieces(path).len() > 0,
        pieces(path).last().len() <= path.len(),
        path.skip(path.len() - pieces(path).last().len()) == pieces(path).last(),
        pieces(path).last().len() == 0 <==> path.len() == 0 || path.last() == '/',
    decreases path.len(),
{
    let last = pieces(path).last();
    if path.len() > 0 {
        let front = path.drop_last();
        lemma_last_piece(front);
        let before = pieces(front).last();
        if path.last() == '/' {
            assert(path.skip(path.len() - last.len()) =~= last);
        } else {
            assert(last == before.push(path.last()));
            assert(path.skip(path.len() - last.len()) =~= front.skip(
                front.len() - before.len(),
            ).push(path.last()));
        }
    } else {
        assert(path.skip(path.len() - last.len()) =~= last);
    }
}

/// The last name of a path is the end of its core.
pub proof fn lemma_named_part(path: Seq<char>)
    ensures
        named_part(path).len() <= path.len(),
        match last_name(pieces(path)) {
            Some(name) => name.len() <= named_part(path).len() && named_part(path).skip(
                named_part(path).len() - name.len(),
            ) == name,
            None => true,
        },
    decreases path.len(),
{
    let parts = pieces(path);
    lemma_last_piece(path);
    if path.len() > 0 {
        let front = path.drop_last();
        lemma_last_piece(front);
        lemma_named_part(front);
        let before = pieces(front);
        if path.last() == '/' {
            assert(parts.drop_last() =~= before);
        } else if path.last() == '.' && (path.len() == 1 || path[path.len() - 2] == '/') {
            assert(before.last().len() == 0) by {
                if path.len() > 1 {
                    assert(front.last() == path[path.len() - 2]);
                }
            }
            assert(parts.last() =~= seq!['.']);
            assert(parts.drop_last() =~= before.drop_last());
        } else {
            let last = parts.last();
            assert(last == before.last().push(path.last()));
            if last == seq!['.'] {
                assert(before.last().len() == 0);
                assert(last[0] == path.last());
                if path.len() > 1 {
                    assert(front.last() == path[path.len() - 2]);
                }
            }
        }
    } else {
        assert(last_name(parts.drop_last()) is None);
    }
}

/// How much of a path its core is.
fn named_length(path: &Vec<char>) -> (length: usize)
    ensures
        length <= path@.len(),
        named_part(path@) == path@.take(length as int),
{
    let mut length: usize = path.len();
    assert(path@.take(length as int) =~= path@);
    while length > 0 && (path[length - 1] == '/' || (path[length - 1] == '.' && (length == 1
        || path[length - 2] == '/')))
        invariant
            length <= path@.len(),
            named_part(path@) == named_part(path@.take(length as int)),
        ensures
            length == 0 || !(path@[length - 1] == '/' || (path@[length - 1] == '.' && (length == 1
                || path@[length - 2] == '/'))),
        decreases length,
    {
        assert(path@.take(length as int).drop_last() =~= path@.take(length - 1));
        length = length - 1;
    }
    length
}

/// How much of a path the directory is.
fn directory_length(path: &Vec<char>, end: usize) -> (length: usize)
    requires
        end <= path@.len(),
    ensures
        length <= end,
        directory(path@.take(end as int)) == path@.take(length as int),
{
    let mut length: usize = end;
    while length > 1 && (path[length - 1] == '/' || (path[length - 1] == '.' && path[length - 2]
        == '/'))
        invariant
            length <= end <= path@.len(),
            directory(path@.take(end as int)) == directory(path@.take(length as int)),
        ensures
            length < 2 || !(path@[length - 1] == '/' || (path@[length - 1] == '.' && path@[length
                - 2] == '/')),
        decreases length,
    {
        assert(path@.take(length as int).drop_last() =~= path@.take(length - 1));
        length = length - 1;
    }
    length
}

/// The last name in a path, the directory above among them.
fn last_piece(path: &str) -> (name: Option<Vec<char>>)
    ensures
        match last_name(pieces(path@)) {
            Some(expected) => name matches Some(found) && found@ == expected,
            None => name is None,
        },
{
    let mut parts = split(path);
    while parts.len() > 0
        invariant
            last_name(pieces(path@)) == last_name(views(parts@)),
        decreases parts@.len(),
    {
        let ghost before = parts@;
        match parts.pop() {
            Some(piece) => {
                assert(views(before).drop_last() =~= views(parts@));
                if names(&piece) {
                    return Some(piece);
                }
            },
            None => return None,
        }
    }
    None
}

/// The directory that a path lies in, if it lies in one.
pub fn parent_directory(path: &str) -> (directory: Option<String>)
    ensures
        match parent_of(path@) {
            Some(expected) => directory matches Some(found) && found@ == expected,
            None => directory is None,
        },
{
    let characters = chars_of(path);
    match last_piece(path) {
        Some(name) => {
            proof {
                lemma_named_part(path@);
            }
            let end: usize = named_length(&characters) - name.len();
            assert(path@.take(end as int) =~= named_part(path@).take(end as int));
            let length: usize = directory_length(&characters, end);
            let found = stretch(&characters, 0, length);
            assert(found@ =~= path@.take(length as int));
            Some(string_of(&found))
        },
        None => {
            if characters.len() > 0 && characters[0] == '.' {
                let nothing = String::new();
                assert(nothing@ =~= Seq::empty());
                Some(nothing)
            } else {
                None
            }
        },
    }
}

/// A path with more behind its last name, the slashes and lone dots behind that
/// left out.
pub fn lengthen(path: &str, suffix: &str) -> (longer: String)
    ensures
        longer@ == lengthened(path@, suffix@),
{
    match file_name(path) {
        Some(_) => {
            let characters = chars_of(path);
            let front = stretch(&characters, 0, named_length(&characters));
            assert(front@ =~= named_part(path@));
            let mut longer = string_of(&front);
            longer.append(suffix);
            longer
        },
        None => path.to_string(),
    }
}

/// A path inside another, or by itself where it starts at the root.
pub fn join(root: &str, file: &str) -> (path: String)
    ensures
        path@ == joined(root@, file@),
{
    let behind = chars_of(file);
    if behind.len() > 0 && behind[0] == '/' {
        return file.to_string();
    }
    let mut path = root.to_string();
    let start = chars_of(root);
    if start.len() > 0 && start[start.len() - 1] != '/' {
        path.push('/');
        assert(path@ =~= root@ + seq!['/']);
    }
    path.append(file);
    path
}

/// A name without a slash behind a slash is a piece of its own.
proof fn lemma_pieces_behind(front: Seq<char>, name: Seq<char>)
    requires
        !name.contains('/'),
    ensures
        pieces(front + seq!['/'] + name) == pieces(front).push(name),
    decreases name.len(),
{
    let path = front + seq!['/'] + name;
    if name.len() == 0 {
        assert(path.drop_last() =~= front);
        assert(path.last() == '/');
        assert(name =~= Seq::empty());
    } else {
        let less = name.drop_last();
        assert(!less.contains('/')) by {
            if less.contains('/') {
                let k = choose|k: int| 0 <= k < less.len() && less[k] == '/';
                assert(name[k] == '/');
            }
        }
        lemma_pieces_behind(front, less);
        assert(path.drop_last() =~= front + seq!['/'] + less);
        assert(path.last() == name.last());
        assert(name[name.len() - 1] != '/');
        let before = pieces(front).push(less);
        assert(before.drop_last() =~= pieces(front));
        assert(less.push(name.last()) =~= name);
    }
}

/// A name without a slash is the only piece.
pub proof fn lemma_pieces_alone(name: Seq<char>)
    requires
        !name.contains('/'),
    ensures
        pieces(name) == seq![name],
    decreases name.len(),
{
    if name.len() == 0 {
        assert(name =~= Seq::empty());
    } else {
        let less = name.drop_last();
        assert(!less.contains('/')) by {
            if less.contains('/') {
                let k = choose|k: int| 0 <= k < less.len() && less[k] == '/';
                assert(name[k] == '/');
            }
        }
        lemma_pieces_alone(less);
        assert(name[name.len() - 1] != '/');
        assert(less.push(name.last()) =~= name);
        assert(seq![less].drop_last().push(less.push(name.last())) =~= seq![name]);
    }
}

/// What stands behind the last slash of a path is the name of its file, with or
/// without slashes at the end.
pub proof fn law_files_are_named_behind_their_directory(directory: Seq<char>, name: Seq<char>)
    requires
        name.len() > 0,
        !name.contains('/'),
        name != seq!['.'],
        name != seq!['.', '.'],
    ensures
        file_name_of(directory + seq!['/'] + name) == Some(name),
        file_name_of(directory + seq!['/'] + name + seq!['/']) == Some(name),
        file_name_of(name) == Some(name),
{
    lemma_pieces_behind(directory, name);
    lemma_pieces_alone(name);
    let path = directory + seq!['/'] + name;
    let nothing = Seq::<char>::empty();
    lemma_pieces_behind(path, nothing);
    assert(path + seq!['/'] + nothing =~= path + seq!['/']);
    assert(pieces(path).push(nothing).drop_last() =~= pieces(path));
    assert(pieces(path).last() == name);
}

/// A file of a directory that is joined to it has the directory as its parent.
pub proof fn law_files_lie_in_the_directory_they_are_joined_to(
    directory: Seq<char>,
    name: Seq<char>,
)
    requires
        directory.len() > 0,
        directory.last() != '/',
        !(directory.last() == '.' && directory.len() > 1 && directory[directory.len() - 2] == '/'),
        name.len() > 0,
        !name.contains('/'),
        name != seq!['.'],
    ensures
        joined(directory, name) == directory + seq!['/'] + name,
        parent_of(joined(directory, name)) == Some(directory),
{
    let path = directory + seq!['/'] + name;
    assert(name[0] != '/');
    lemma_pieces_behind(directory, name);
    assert(pieces(path).last() == name);
    assert(path.last() == name.last());
    assert(name[name.len() - 1] != '/');
    if path.last() == '.' {
        if name.len() == 1 {
            assert(name =~= seq!['.']);
        } else {
            assert(path[path.len() - 2] == name[name.len() - 2]);
            assert(name[name.len() - 2] != '/');
        }
    }
    assert(named_part(path) == path);
    let front = path.take(path.len() - name.len());
    assert(front =~= directory + seq!['/']);
    assert(front.drop_last() =~= directory);
    assert(crate::path::directory(front) == crate::path::directory(directory));
}

/// A file name is its stem, a dot and its extension, and is told apart at the
/// last dot.
pub proof fn law_names_are_a_stem_and_an_extension(stem: Seq<char>, extension: Seq<char>)
    requires
        stem.len() > 0,
        !extension.contains('.'),
    ensures
        extension_of(stem + seq!['.'] + extension) == Some(extension),
        stem_of(stem + seq!['.'] + extension) == stem,
    decreases extension.len(),
{
    let name = stem + seq!['.'] + extension;
    lemma_last_dot(stem, extension);
    assert(name.skip(stem.len() as int + 1) =~= extension);
    assert(name.take(stem.len() as int) =~= stem);
}

proof fn lemma_last_dot(stem: Seq<char>, extension: Seq<char>)
    requires
        !extension.contains('.'),
    ensures
        last_dot(stem + seq!['.'] + extension) == stem.len(),
    decreases extension.len(),
{
    let name = stem + seq!['.'] + extension;
    if extension.len() > 0 {
        let less = extension.drop_last();
        assert(!less.contains('.')) by {
            if less.contains('.') {
                let k = choose|k: int| 0 <= k < less.len() && less[k] == '.';
                assert(extension[k] == '.');
            }
        }
        lemma_last_dot(stem, less);
        assert(name.drop_last() =~= stem + seq!['.'] + less);
        assert(name.last() == extension.last());
        assert(extension[extension.len() - 1] != '.');
    } else {
        assert(name.last() == '.');
    }
}

/// A name without a dot, or with one only in front, has no extension.
pub proof fn law_leading_dots_open_no_extension(name: Seq<char>)
    requires
        forall|i: int| 0 < i < name.len() ==> name[i] != '.',
    ensures
        extension_of(name) is None,
        stem_of(name) == name,
    decreases name.len(),
{
    if name.len() > 1 {
        let less = name.drop_last();
        assert(name[name.len() - 1] != '.');
        assert forall|i: int| 0 < i < less.len() implies less[i] != '.' by {
            assert(name[i] != '.');
        }
        law_leading_dots_open_no_extension(less);
        assert(last_dot(name) == last_dot(less));
    } else if name.len() == 1 {
        assert(name.drop_last() =~= Seq::empty());
        assert(last_dot(name.drop_last()) == 0);
    }
}

/// A slash parts a path in two.
pub proof fn lemma_pieces_at_slash(first: Seq<char>, second: Seq<char>)
    ensures
        pieces(first + seq!['/'] + second) == pieces(first) + pieces(second),
        pieces(second).len() > 0,
    decreases second.len(),
{
    let whole = first + seq!['/'] + second;
    if second.len() == 0 {
        assert(whole.drop_last() =~= first);
        assert(whole.last() == '/');
        assert(pieces(first).push(Seq::empty()) =~= pieces(first) + seq![Seq::<char>::empty()]);
    } else {
        let less = second.drop_last();
        lemma_pieces_at_slash(first, less);
        assert(whole.drop_last() =~= first + seq!['/'] + less);
        assert(whole.last() == second.last());
        let all = pieces(first) + pieces(less);
        assert(all.drop_last() =~= pieces(first) + pieces(less).drop_last());
        assert(all.last() == pieces(less).last());
        if second.last() == '/' {
            assert(all.push(Seq::empty()) =~= pieces(first) + pieces(less).push(Seq::empty()));
        } else {
            let grown = pieces(less).last().push(second.last());
            assert(all.drop_last().push(grown) =~= pieces(first) + pieces(less).drop_last().push(
                grown,
            ));
        }
    }
}

/// A path that is made longer ends in the suffix, in the same directory.
pub proof fn law_lengthened_names_end_in_the_suffix(
    directory: Seq<char>,
    name: Seq<char>,
    suffix: Seq<char>,
)
    requires
        name.len() > 0,
        !name.contains('/'),
        name != seq!['.'],
        name != seq!['.', '.'],
    ensures
        lengthened(directory + seq!['/'] + name, suffix) == directory + seq!['/'] + name + suffix,
        lengthened(directory + seq!['/'] + name + seq!['/'], suffix) == directory + seq!['/'] + name
            + suffix,
{
    let path = directory + seq!['/'] + name;
    law_files_are_named_behind_their_directory(directory, name);
    assert(path.last() == name.last());
    assert(name[name.len() - 1] != '/');
    if path.last() == '.' {
        if name.len() == 1 {
            assert(name =~= seq!['.']);
        } else {
            assert(path[path.len() - 2] == name[name.len() - 2]);
            assert(name[name.len() - 2] != '/');
        }
    }
    assert(named_part(path) == path);
    let longer = path + seq!['/'];
    assert(longer.last() == '/');
    assert(longer.drop_last() =~= path);
    assert(named_part(longer) == path);
}

} // verus!
