//! File names inside Windows paths.
//!
//! A path is text that may begin with a prefix: a drive `C:`, a network share
//! `\\server\share`, a device `\\.\COM42`, or one of the verbatim prefixes
//! `\\?\name`, `\\?\C:` and `\\?\UNC\server\share`. Components follow it.
//! Both `/` and `\` separate them, and trailing `.` components mean nothing; but
//! under a verbatim prefix `/` and `.` stand for themselves, but for a `/` right
//! behind it. Repeated and trailing separators mean nothing.
use crate::text::{self, chars_of, texts};
use vstd::prelude::*;

verus! {

pub open spec fn is_separator(c: char) -> bool {
    c == '/' || c == '\\'
}

/// Whether a character separates components, under a verbatim prefix or not.
pub open spec fn separates(c: char, verbatim: bool) -> bool {
    c == '\\' || (c == '/' && !verbatim)
}

pub open spec fn is_letter(c: char) -> bool {
    ('a' <= c && c <= 'z') || ('A' <= c && c <= 'Z')
}

/// Whether a path begins with a drive.
pub open spec fn has_drive(s: Seq<char>) -> bool {
    s.len() >= 2 && s[1] == ':' && is_letter(s[0])
}

/// Whether a path has a verbatim prefix. It is written with `\` alone.
pub open spec fn is_verbatim(s: Seq<char>) -> bool {
    s.len() >= 4 && s[0] == '\\' && s[1] == '\\' && s[2] == '?' && s[3] == '\\'
}

/// Whether a path has the prefix of a device.
pub open spec fn is_device(s: Seq<char>) -> bool {
    s.len() >= 4 && is_separator(s[0]) && is_separator(s[1]) && s[2] == '.' && is_separator(s[3])
}

/// Whether a verbatim path names a network share.
pub open spec fn is_verbatim_share(s: Seq<char>) -> bool {
    s.len() >= 8 && s[4] == 'U' && s[5] == 'N' && s[6] == 'C' && is_separator(s[7])
}

/// Whether a verbatim path names a drive, and nothing that merely begins like one.
pub open spec fn is_verbatim_drive(s: Seq<char>) -> bool {
    s.len() >= 6 && is_letter(s[4]) && s[5] == ':' && (s.len() == 6 || is_separator(s[6]))
}

/// The index of the first separator from an index on, the length of the path
/// where there is none.
pub open spec fn next_separator(s: Seq<char>, from: int, verbatim: bool) -> int
    decreases s.len() - from,
{
    if from >= s.len() {
        s.len() as int
    } else if separates(s[from], verbatim) {
        from
    } else {
        next_separator(s, from + 1, verbatim)
    }
}

/// The length of the prefix of a path, zero where it has none. A share has a
/// server and a name; what begins with two separators and lacks either of them is
/// no share.
pub open spec fn prefix_len(s: Seq<char>) -> int {
    if is_verbatim(s) {
        if is_verbatim_share(s) {
            let server = next_separator(s, 8, true);
            let share = next_separator(s, server + 1, true);
            if share > server + 1 {
                share
            } else {
                server
            }
        } else if is_verbatim_drive(s) {
            6
        } else {
            next_separator(s, 4, true)
        }
    } else if is_device(s) {
        next_separator(s, 4, false)
    } else if s.len() >= 2 && is_separator(s[0]) && is_separator(s[1]) {
        let server = next_separator(s, 2, false);
        let share = next_separator(s, server + 1, false);
        if server > 2 && share > server + 1 {
            share
        } else {
            0
        }
    } else if has_drive(s) {
        2
    } else {
        0
    }
}

/// Whether a separator follows the prefix of a path. Right behind a prefix either
/// of the two is a root, also where `/` separates nothing further on.
pub open spec fn is_rooted(s: Seq<char>) -> bool {
    prefix_len(s) < s.len() && is_separator(s[prefix_len(s)])
}

/// Whether what follows the prefix of a path begins with a `.` component. That one
/// has a meaning, where the path has no root.
pub open spec fn starts_here(s: Seq<char>) -> bool {
    let p = prefix_len(s);
    &&& p == 0 || has_drive(s)
    &&& !is_rooted(s)
    &&& p < s.len()
    &&& s[p] == '.'
    &&& p + 1 == s.len() || separates(s[p + 1], is_verbatim(s))
}

/// Where the components of a path begin, behind its prefix and root.
pub open spec fn body_start(s: Seq<char>) -> int {
    if is_rooted(s) || starts_here(s) {
        prefix_len(s) + 1
    } else {
        prefix_len(s)
    }
}

/// Where the last component that ends at `end` or before it ends.
pub open spec fn trimmed_end(s: Seq<char>, end: int) -> int
    decreases end,
{
    if end <= body_start(s) || end <= 0 {
        end
    } else if separates(s[end - 1], is_verbatim(s)) || (!is_verbatim(s) && s[end - 1] == '.' && (end
        - 1 == body_start(s) || is_separator(s[end - 2]))) {
        trimmed_end(s, end - 1)
    } else {
        end
    }
}

/// Where the last component of a path ends.
pub open spec fn name_end(s: Seq<char>) -> int {
    trimmed_end(s, s.len() as int)
}

/// Where the component that ends at `end` begins.
pub open spec fn name_start(s: Seq<char>, end: int) -> int
    decreases end,
{
    if end <= body_start(s) || end <= 0 || separates(s[end - 1], is_verbatim(s)) {
        end
    } else {
        name_start(s, end - 1)
    }
}

/// The last component of a path, whatever it is.
pub open spec fn last_component(s: Seq<char>) -> Seq<char> {
    s.subrange(name_start(s, name_end(s)), name_end(s))
}

/// The name of the file that a path leads to; a path that ends in a prefix, a
/// root, `.` or `..` names no file.
pub open spec fn file_name_of(s: Seq<char>) -> Option<Seq<char>> {
    let name = last_component(s);
    if name.len() == 0 || name =~= seq!['.'] || name =~= seq!['.', '.'] {
        None
    } else {
        Some(name)
    }
}

/// The length of a file name without its extension: up to the last dot, unless
/// that dot is missing or comes first.
pub open spec fn stem_len(name: Seq<char>) -> int {
    let dot = last_dot(name, name.len() as int);
    if dot > 0 {
        dot
    } else {
        name.len() as int
    }
}

/// The index of the last dot among the first `n` characters, -1 where there is
/// none.
pub open spec fn last_dot(name: Seq<char>, n: int) -> int
    decreases n,
{
    if n <= 0 {
        -1
    } else if name[n - 1] == '.' {
        n - 1
    } else {
        last_dot(name, n - 1)
    }
}

/// The file name without its extension.
pub open spec fn stem_of(s: Seq<char>) -> Option<Seq<char>> {
    match file_name_of(s) {
        Some(name) => Some(name.take(stem_len(name))),
        None => None,
    }
}

/// What follows the last dot of the file name.
pub open spec fn extension_of(s: Seq<char>) -> Option<Seq<char>> {
    match file_name_of(s) {
        Some(name) => if stem_len(name) < name.len() {
            Some(name.skip(stem_len(name) + 1))
        } else {
            None
        },
        None => None,
    }
}

/// A path with another extension in place of the one it has, if any. A path
/// that names no file is unchanged.
pub open spec fn extended(s: Seq<char>, extension: Seq<char>) -> Seq<char> {
    match file_name_of(s) {
        Some(name) => {
            let kept = s.take(name_start(s, name_end(s)) + stem_len(name));
            if extension.len() > 0 {
                kept + seq!['.'] + extension
            } else {
                kept
            }
        },
        None => s,
    }
}

/// The pieces of a text between separators, without empty ones, and the piece
/// that is not closed by a separator yet.
pub open spec fn pieces(s: Seq<char>, verbatim: bool) -> (Seq<Seq<char>>, Seq<char>)
    decreases s.len(),
{
    if s.len() == 0 {
        (Seq::empty(), Seq::empty())
    } else {
        let (closed, open) = pieces(s.drop_last(), verbatim);
        if !separates(s.last(), verbatim) {
            (closed, open.push(s.last()))
        } else if open.len() > 0 {
            (closed.push(open), Seq::empty())
        } else {
            (closed, open)
        }
    }
}

/// The pieces of a text between separators, without empty ones.
pub open spec fn components_of(s: Seq<char>, verbatim: bool) -> Seq<Seq<char>> {
    let (closed, open) = pieces(s, verbatim);
    if open.len() > 0 {
        closed.push(open)
    } else {
        closed
    }
}

/// Whether a component stays or leads up.
pub open spec fn is_dots(c: Seq<char>) -> bool {
    c == seq!['.'] || c == seq!['.', '.']
}

/// Components after one more step: `.` stays, `..` leads up from a named
/// component, and any other name leads down.
pub open spec fn stepped(components: Seq<Seq<char>>, step: Seq<char>) -> Seq<Seq<char>> {
    if step == seq!['.'] {
        components
    } else if step == seq!['.', '.'] {
        if components.len() > 0 && !is_dots(components.last()) {
            components.drop_last()
        } else {
            components
        }
    } else {
        components.push(step)
    }
}

/// Components after some steps.
pub open spec fn walked(components: Seq<Seq<char>>, steps: Seq<Seq<char>>) -> Seq<Seq<char>>
    decreases steps.len(),
{
    if steps.len() == 0 {
        components
    } else {
        stepped(walked(components, steps.drop_last()), steps.last())
    }
}

/// Components, each behind a separator.
pub open spec fn separated(components: Seq<Seq<char>>) -> Seq<char>
    decreases components.len(),
{
    if components.len() == 0 {
        Seq::empty()
    } else {
        separated(components.drop_last()) + seq!['\\'] + components.last()
    }
}

/// A verbatim path followed by a relative or rooted one. Since `.` and `..` would
/// stand for themselves, they are resolved.
pub open spec fn joined_verbatim(dir: Seq<char>, name: Seq<char>) -> Seq<char> {
    let prefix = dir.take(prefix_len(dir));
    let rooted = is_separator(name[0]);
    let components = walked(
        if rooted {
            Seq::empty()
        } else {
            components_of(dir.skip(body_start(dir)), true)
        },
        components_of(name, false),
    );
    if components.len() > 0 {
        prefix + separated(components)
    } else if rooted || is_rooted(dir) {
        prefix + seq!['\\']
    } else {
        prefix
    }
}

/// A path followed by another. One with a prefix replaces it, and one with a root
/// replaces all but its prefix. Else a separator goes between them, unless the
/// path is empty, ends in one already, or is a bare drive.
pub open spec fn joined(dir: Seq<char>, name: Seq<char>) -> Seq<char> {
    if prefix_len(name) > 0 {
        name
    } else if is_verbatim(dir) && name.len() > 0 {
        joined_verbatim(dir, name)
    } else if name.len() > 0 && is_separator(name[0]) {
        dir.take(prefix_len(dir)) + name
    } else if dir.len() == 0 || is_separator(dir.last()) || (dir.len() == 2 && has_drive(dir)) {
        dir + name
    } else {
        dir + seq!['\\'] + name
    }
}

/// A path with another file name in place of the one it has: the name, appended to
/// what leads to the file. Where the path names no file, the name is appended to it
/// as it is.
pub open spec fn renamed(s: Seq<char>, name: Seq<char>) -> Seq<char> {
    match file_name_of(s) {
        Some(_) => joined(s.take(trimmed_end(s, name_start(s, name_end(s)))), name),
        None => joined(s, name),
    }
}

fn separator(c: char) -> (r: bool)
    ensures
        r == is_separator(c),
{
    c == '/' || c == '\\'
}

fn letter(c: char) -> (r: bool)
    ensures
        r == is_letter(c),
{
    (c >= 'a' && c <= 'z') || (c >= 'A' && c <= 'Z')
}

/// Whether a path names a drive at an index.
fn drive_at(x: &Vec<char>, i: usize) -> (r: bool)
    requires
        i <= 4,
    ensures
        r == (x@.len() >= i + 2 && is_letter(x@[i as int]) && x@[i + 1] == ':'),
{
    x.len() >= i + 2 && letter(x[i]) && x[i + 1] == ':'
}

proof fn separator_bounds(s: Seq<char>, from: int, verbatim: bool)
    requires
        0 <= from,
    ensures
        ({
            let at = next_separator(s, from, verbatim);
            &&& 0 <= at <= s.len()
            &&& from <= s.len() ==> from <= at
            &&& at < s.len() ==> separates(s[at], verbatim)
            &&& forall|i: int| from <= i < at ==> !separates(#[trigger] s[i], verbatim)
        }),
    decreases s.len() - from,
{
    if from < s.len() && !separates(s[from], verbatim) {
        separator_bounds(s, from + 1, verbatim);
    }
}

proof fn separator_found(s: Seq<char>, from: int, at: int, verbatim: bool)
    requires
        0 <= from <= at <= s.len(),
        at < s.len() ==> separates(s[at], verbatim),
        forall|i: int| from <= i < at ==> !separates(#[trigger] s[i], verbatim),
    ensures
        next_separator(s, from, verbatim) == at,
    decreases at - from,
{
    if from < at {
        assert(!separates(s[from], verbatim));
        separator_found(s, from + 1, at, verbatim);
    }
}

proof fn prefix_bounds(s: Seq<char>)
    ensures
        0 <= prefix_len(s) <= s.len(),
        is_verbatim(s) ==> prefix_len(s) >= 4,
        prefix_len(s) <= body_start(s) <= s.len(),
{
    separator_bounds(s, 4, true);
    separator_bounds(s, 4, false);
    separator_bounds(s, 2, false);
    separator_bounds(s, next_separator(s, 2, false) + 1, false);
    if s.len() >= 8 {
        separator_bounds(s, 8, true);
        separator_bounds(s, next_separator(s, 8, true) + 1, true);
    }
}

proof fn trimmed_bounds(s: Seq<char>, end: int)
    requires
        body_start(s) <= end <= s.len(),
    ensures
        body_start(s) <= trimmed_end(s, end) <= end,
    decreases end,
{
    prefix_bounds(s);
    if end > body_start(s) && (separates(s[end - 1], is_verbatim(s)) || (!is_verbatim(s) && s[end
        - 1] == '.' && (end - 1 == body_start(s) || is_separator(s[end - 2])))) {
        trimmed_bounds(s, end - 1);
    }
}

proof fn start_between(s: Seq<char>, end: int)
    requires
        body_start(s) <= end <= s.len(),
    ensures
        body_start(s) <= name_start(s, end) <= end,
        forall|i: int|
            name_start(s, end) <= i < end ==> !separates(#[trigger] s[i], is_verbatim(s)),
    decreases end,
{
    prefix_bounds(s);
    if end > body_start(s) && !separates(s[end - 1], is_verbatim(s)) {
        start_between(s, end - 1);
    }
}

proof fn start_found(s: Seq<char>, start: int, end: int)
    requires
        body_start(s) <= start <= end <= s.len(),
        forall|i: int| start <= i < end ==> !separates(#[trigger] s[i], is_verbatim(s)),
        start == body_start(s) || separates(s[start - 1], is_verbatim(s)),
    ensures
        name_start(s, end) == start,
    decreases end,
{
    prefix_bounds(s);
    if end > start {
        assert(!separates(s[end - 1], is_verbatim(s)));
        start_found(s, start, end - 1);
    }
}

proof fn dot_bounds(name: Seq<char>, n: int)
    requires
        0 <= n <= name.len(),
    ensures
        -1 <= last_dot(name, n) < n,
        last_dot(name, n) >= 0 ==> name[last_dot(name, n)] == '.',
    decreases n,
{
    if n > 0 && name[n - 1] != '.' {
        dot_bounds(name, n - 1);
    }
}

/// What a path begins with.
struct Shape {
    verbatim: bool,
    /// Length of the prefix.
    prefix: usize,
    rooted: bool,
    /// Where the components begin.
    body: usize,
}

impl Shape {
    spec fn is_of(self, s: Seq<char>) -> bool {
        &&& self.verbatim == is_verbatim(s)
        &&& self.prefix == prefix_len(s)
        &&& self.rooted == is_rooted(s)
        &&& self.body == body_start(s)
        &&& self.prefix <= self.body <= s.len()
    }
}

fn separates_in(c: char, verbatim: bool) -> (r: bool)
    ensures
        r == separates(c, verbatim),
{
    c == '\\' || (c == '/' && !verbatim)
}

fn separator_from(x: &Vec<char>, from: usize, verbatim: bool) -> (r: usize)
    requires
        from <= x@.len(),
    ensures
        r == next_separator(x@, from as int, verbatim),
        from <= r <= x@.len(),
{
    let mut i: usize = from;
    while i < x.len() && !separates_in(x[i], verbatim)
        invariant
            from <= i <= x@.len(),
            next_separator(x@, from as int, verbatim) == next_separator(x@, i as int, verbatim),
        decreases x@.len() - i,
    {
        i = i + 1;
    }
    i
}

/// The ends of the names of a server and of a share.
fn share_from(x: &Vec<char>, from: usize, verbatim: bool) -> (r: (usize, usize))
    requires
        from <= x@.len(),
    ensures
        r.0 == next_separator(x@, from as int, verbatim),
        r.1 == next_separator(x@, r.0 + 1, verbatim),
        from <= r.0 <= x@.len(),
        r.1 <= x@.len(),
{
    let server: usize = separator_from(x, from, verbatim);
    if server < x.len() {
        (server, separator_from(x, server + 1, verbatim))
    } else {
        (server, x.len())
    }
}

fn prefix_of(x: &Vec<char>, verbatim: bool) -> (r: usize)
    requires
        verbatim == is_verbatim(x@),
    ensures
        r == prefix_len(x@),
{
    let n: usize = x.len();
    if verbatim {
        if n >= 8 && x[4] == 'U' && x[5] == 'N' && x[6] == 'C' && separator(x[7]) {
            let (server, share) = share_from(x, 8, true);
            return if share > server && share - server > 1 {
                share
            } else {
                server
            };
        }
        if drive_at(x, 4) && (n == 6 || separator(x[6])) {
            return 6;
        }
        return separator_from(x, 4, true);
    }
    if n >= 2 && separator(x[0]) && separator(x[1]) {
        if n >= 4 && x[2] == '.' && separator(x[3]) {
            return separator_from(x, 4, false);
        }
        let (server, share) = share_from(x, 2, false);
        return if server > 2 && share > server && share - server > 1 {
            share
        } else {
            0
        };
    }
    if drive_at(x, 0) {
        2
    } else {
        0
    }
}

fn shape_of(x: &Vec<char>) -> (r: Shape)
    ensures
        r.is_of(x@),
{
    let n: usize = x.len();
    let verbatim = n >= 4 && x[0] == '\\' && x[1] == '\\' && x[2] == '?' && x[3] == '\\';
    let prefix: usize = prefix_of(x, verbatim);
    proof {
        prefix_bounds(x@);
    }
    let rooted = prefix < n && separator(x[prefix]);
    let here = (prefix == 0 || drive_at(x, 0)) && !rooted && prefix < n && x[prefix] == '.' && (n
        - prefix == 1 || separates_in(x[prefix + 1], verbatim));
    let body: usize = if rooted || here {
        prefix + 1
    } else {
        prefix
    };
    Shape { verbatim, prefix, rooted, body }
}

fn trim_end(x: &Vec<char>, shape: &Shape, from: usize) -> (r: usize)
    requires
        shape.is_of(x@),
        shape.body <= from <= x@.len(),
    ensures
        r == trimmed_end(x@, from as int),
        shape.body <= r <= from,
{
    let mut end: usize = from;
    while end > shape.body && (separates_in(x[end - 1], shape.verbatim) || (!shape.verbatim && x[end
        - 1] == '.' && (end - 1 == shape.body || separator(x[end - 2]))))
        invariant
            shape.is_of(x@),
            shape.body <= end <= from <= x@.len(),
            trimmed_end(x@, from as int) == trimmed_end(x@, end as int),
        decreases end,
    {
        end = end - 1;
    }
    end
}

/// The bounds of the last component.
fn name_range(x: &Vec<char>, shape: &Shape) -> (r: (usize, usize))
    requires
        shape.is_of(x@),
    ensures
        r.1 == name_end(x@),
        r.0 == name_start(x@, r.1 as int),
        shape.body <= r.0 <= r.1 <= x@.len(),
{
    let end: usize = trim_end(x, shape, x.len());
    let mut start: usize = end;
    while start > shape.body && !separates_in(x[start - 1], shape.verbatim)
        invariant
            shape.is_of(x@),
            shape.body <= start <= end <= x.len(),
            name_start(x@, end as int) == name_start(x@, start as int),
        decreases start,
    {
        start = start - 1;
    }
    (start, end)
}

/// The bounds of the file name, with the end of its stem between them.
fn file_name_range(x: &Vec<char>) -> (r: Option<(usize, usize, usize)>)
    ensures
        match r {
            Some((start, stem, end)) => {
                &&& start == name_start(x@, name_end(x@))
                &&& end == name_end(x@)
                &&& file_name_of(x@) == Some(x@.subrange(start as int, end as int))
                &&& stem == start + stem_len(x@.subrange(start as int, end as int))
                &&& start < stem <= end <= x@.len()
            },
            None => file_name_of(x@) is None,
        },
{
    let shape = shape_of(x);
    let (start, end) = name_range(x, &shape);
    let ghost name = x@.subrange(start as int, end as int);
    if start == end || (end - start == 1 && x[start] == '.') || (end - start == 2 && x[start] == '.'
        && x[start + 1] == '.') {
        proof {
            if end - start == 1 {
                assert(name =~= seq!['.']);
            }
            if end - start == 2 {
                assert(name =~= seq!['.', '.']);
            }
        }
        return None;
    }
    proof {
        if name =~= seq!['.'] {
            assert(name[0] == '.');
        }
        if name =~= seq!['.', '.'] {
            assert(name[0] == '.' && name[1] == '.');
        }
        dot_bounds(name, name.len() as int);
    }
    let mut dot: usize = end;
    while dot > start && x[dot - 1] != '.'
        invariant
            start <= dot <= end <= x.len(),
            name == x@.subrange(start as int, end as int),
            last_dot(name, name.len() as int) == last_dot(name, dot - start),
        decreases dot,
    {
        proof {
            assert(name[dot - start - 1] == x@[dot - 1]);
        }
        dot = dot - 1;
    }
    proof {
        if dot > start {
            assert(name[dot - start - 1] == x@[dot - 1]);
        }
    }
    let stem: usize = if dot > start + 1 {
        dot - 1
    } else {
        end
    };
    Some((start, stem, end))
}

/// The name of the file that a path leads to.
pub fn file_name(path: &str) -> (r: Option<String>)
    ensures
        match r {
            Some(name) => file_name_of(path@) == Some(name@),
            None => file_name_of(path@) is None,
        },
{
    let x = chars_of(path);
    match file_name_range(&x) {
        Some((start, _, end)) => Some(path.substring_char(start, end).to_owned()),
        None => None,
    }
}

/// The file name without its extension.
pub fn file_stem(path: &str) -> (r: Option<String>)
    ensures
        match r {
            Some(stem) => stem_of(path@) == Some(stem@),
            None => stem_of(path@) is None,
        },
{
    let x = chars_of(path);
    match file_name_range(&x) {
        Some((start, stem, end)) => {
            let r = path.substring_char(start, stem).to_owned();
            proof {
                let name = path@.subrange(start as int, end as int);
                assert(r@ =~= name.take(stem_len(name)));
            }
            Some(r)
        },
        None => None,
    }
}

/// The extension of the file name.
pub fn extension(path: &str) -> (r: Option<String>)
    ensures
        match r {
            Some(extension) => extension_of(path@) == Some(extension@),
            None => extension_of(path@) is None,
        },
{
    let x = chars_of(path);
    match file_name_range(&x) {
        Some((start, stem, end)) => {
            if stem < end {
                let r = path.substring_char(stem + 1, end).to_owned();
                proof {
                    let name = path@.subrange(start as int, end as int);
                    assert(r@ =~= name.skip(stem_len(name) + 1));
                }
                Some(r)
            } else {
                None
            }
        },
        None => None,
    }
}

/// Replaces or adds the extension of a path.
pub fn with_extension(path: &str, extension: &str) -> (r: String)
    ensures
        r@ == extended(path@, extension@),
{
    let x = chars_of(path);
    match file_name_range(&x) {
        Some((_, stem, _)) => {
            let mut r = path.substring_char(0, stem).to_owned();
            proof {
                assert(r@ =~= path@.take(stem as int));
                reveal_strlit(".");
                assert("."@ =~= seq!['.']);
            }
            if extension.unicode_len() > 0 {
                r.append(".");
                r.append(extension);
            }
            r
        },
        None => path.to_owned(),
    }
}

/// The components of a path from an index on.
fn components_from(path: &str, from: usize, verbatim: bool) -> (r: Vec<String>)
    requires
        from <= path@.len(),
    ensures
        texts(r@) == components_of(path@.skip(from as int), verbatim),
{
    let x = chars_of(path);
    let n: usize = x.len();
    let ghost s = path@.skip(from as int);
    let mut r: Vec<String> = Vec::new();
    let mut start: usize = from;
    proof {
        assert(s.take(0) =~= Seq::empty());
        assert(texts(r@) =~= Seq::empty());
        assert(path@.subrange(from as int, from as int) =~= Seq::empty());
    }
    for i in from..n
        invariant
            x@ == path@,
            n == x@.len(),
            from <= start <= i <= n,
            s == path@.skip(from as int),
            pieces(s.take(i - from), verbatim) == (
                texts(r@),
                path@.subrange(start as int, i as int),
            ),
    {
        proof {
            assert(s.take(i + 1 - from).drop_last() =~= s.take(i - from));
            assert(s.take(i + 1 - from).last() == x@[i as int]);
        }
        if separates_in(x[i], verbatim) {
            if i > start {
                let ghost before = r@;
                r.push(path.substring_char(start, i).to_owned());
                proof {
                    assert(texts(r@) =~= texts(before).push(path@.subrange(start as int, i as int)));
                }
            }
            start = i + 1;
            proof {
                assert(path@.subrange(start as int, i + 1) =~= Seq::empty());
            }
        } else {
            proof {
                assert(path@.subrange(start as int, i + 1) =~= path@.subrange(
                    start as int,
                    i as int,
                ).push(x@[i as int]));
            }
        }
    }
    proof {
        assert(s.take(n - from) =~= s);
    }
    if n > start {
        let ghost before = r@;
        r.push(path.substring_char(start, n).to_owned());
        proof {
            assert(texts(r@) =~= texts(before).push(path@.subrange(start as int, n as int)));
        }
    }
    r
}

/// Takes a step from components.
fn step_from(components: &mut Vec<String>, step: &str)
    ensures
        texts(final(components)@) == stepped(texts(old(components)@), step@),
{
    proof {
        reveal_strlit(".");
        reveal_strlit("..");
        assert("."@ =~= seq!['.']);
        assert(".."@ =~= seq!['.', '.']);
    }
    let ghost before = components@;
    if text::same(step, ".") {
        return;
    }
    if text::same(step, "..") {
        let n: usize = components.len();
        if n > 0 && !text::same(components[n - 1].as_str(), ".") && !text::same(
            components[n - 1].as_str(),
            "..",
        ) {
            let _ = components.pop();
            proof {
                assert(texts(components@) =~= texts(before).drop_last());
            }
        }
        return;
    }
    components.push(step.to_owned());
    proof {
        assert(texts(components@) =~= texts(before).push(step@));
    }
}

fn join_verbatim(dir: &str, name: &str, shape: &Shape) -> (r: String)
    requires
        shape.is_of(dir@),
        name@.len() > 0,
    ensures
        r@ == joined_verbatim(dir@, name@),
{
    let y = chars_of(name);
    let rooted = separator(y[0]);
    let mut components: Vec<String> = if rooted {
        Vec::new()
    } else {
        components_from(dir, shape.body, true)
    };
    let ghost first = texts(components@);
    proof {
        if rooted {
            assert(first =~= Seq::empty());
        }
        assert(name@.skip(0) =~= name@);
    }
    let steps = components_from(name, 0, false);
    let ghost all = texts(steps@);
    proof {
        assert(all.take(0) =~= Seq::empty());
    }
    for i in 0..steps.len()
        invariant
            all == texts(steps@),
            texts(components@) == walked(first, all.take(i as int)),
    {
        proof {
            assert(all.take(i + 1).drop_last() =~= all.take(i as int));
            assert(all.take(i + 1).last() == steps@[i as int]@);
        }
        step_from(&mut components, steps[i].as_str());
    }
    proof {
        assert(all.take(all.len() as int) =~= all);
        reveal_strlit("\\");
        assert("\\"@ =~= seq!['\\']);
    }
    let mut r = dir.substring_char(0, shape.prefix).to_owned();
    let ghost prefix = r@;
    proof {
        assert(prefix =~= dir@.take(prefix_len(dir@)));
    }
    let ghost last = texts(components@);
    proof {
        assert(last.take(0) =~= Seq::empty());
        assert(prefix + separated(Seq::empty()) =~= prefix);
    }
    for i in 0..components.len()
        invariant
            last == texts(components@),
            "\\"@ == seq!['\\'],
            r@ == prefix + separated(last.take(i as int)),
    {
        proof {
            assert(last.take(i + 1).drop_last() =~= last.take(i as int));
            assert(last.take(i + 1).last() == components@[i as int]@);
        }
        r.append("\\");
        r.append(components[i].as_str());
        proof {
            assert(r@ =~= prefix + separated(last.take(i + 1)));
        }
    }
    proof {
        assert(last.take(last.len() as int) =~= last);
    }
    if components.len() == 0 && (rooted || shape.rooted) {
        r.append("\\");
    }
    r
}

/// Appends a path to another.
pub fn join(dir: &str, name: &str) -> (r: String)
    ensures
        r@ == joined(dir@, name@),
{
    let x = chars_of(dir);
    let y = chars_of(name);
    if shape_of(&y).prefix > 0 {
        return name.to_owned();
    }
    let shape = shape_of(&x);
    if shape.verbatim && y.len() > 0 {
        return join_verbatim(dir, name, &shape);
    }
    if y.len() > 0 && separator(y[0]) {
        let mut r = dir.substring_char(0, shape.prefix).to_owned();
        proof {
            assert(r@ =~= dir@.take(prefix_len(dir@)));
        }
        r.append(name);
        return r;
    }
    let n: usize = x.len();
    let mut r = dir.to_owned();
    if !(n == 0 || separator(x[n - 1]) || (n == 2 && drive_at(&x, 0))) {
        proof {
            reveal_strlit("\\");
            assert("\\"@ =~= seq!['\\']);
        }
        r.append("\\");
    }
    r.append(name);
    r
}

/// Replaces the file name of a path.
pub fn with_file_name(path: &str, name: &str) -> (r: String)
    ensures
        r@ == renamed(path@, name@),
{
    let x = chars_of(path);
    match file_name_range(&x) {
        Some((start, _, _)) => {
            let shape = shape_of(&x);
            proof {
                trimmed_bounds(x@, x@.len() as int);
                start_between(x@, name_end(x@));
            }
            let end: usize = trim_end(&x, &shape, start);
            let parent = path.substring_char(0, end);
            proof {
                assert(parent@ =~= path@.take(end as int));
            }
            join(parent, name)
        },
        None => join(path, name),
    }
}

/// Whether a text can stand as an extension: not empty, and without dots and
/// separators.
pub open spec fn is_extension(e: Seq<char>) -> bool {
    &&& e.len() > 0
    &&& forall|i: int| 0 <= i < e.len() ==> #[trigger] e[i] != '.' && !is_separator(e[i])
}

proof fn dot_found(name: Seq<char>, dot: int, n: int)
    requires
        0 <= dot < n <= name.len(),
        name[dot] == '.',
        forall|i: int| dot < i < n ==> name[i] != '.',
    ensures
        last_dot(name, n) == dot,
    decreases n,
{
    if n - 1 > dot {
        dot_found(name, dot, n - 1);
    }
}

/// A change behind the beginning of a component leaves the prefix as it is.
proof fn prefix_kept(s: Seq<char>, t: Seq<char>, start: int, k: int)
    requires
        body_start(s) <= start < k <= s.len(),
        k + 2 <= t.len(),
        forall|i: int| 0 <= i < k ==> #[trigger] t[i] == s[i],
        forall|i: int| k <= i < t.len() ==> !is_separator(#[trigger] t[i]),
        t[k] == '.',
        forall|i: int| start <= i < k ==> !separates(#[trigger] s[i], is_verbatim(s)),
    ensures
        is_verbatim(t) == is_verbatim(s),
        prefix_len(t) == prefix_len(s),
        body_start(t) == body_start(s),
{
    prefix_bounds(s);
    let p = prefix_len(s);
    assert(p <= start);
    if is_verbatim(t) {
        assert(3 < k) by {
            if k <= 3 {
                assert(!is_separator(t[3]));
            }
        }
    }
    assert(is_verbatim(t) == is_verbatim(s));
    if is_verbatim(s) {
        if is_verbatim_share(t) {
            assert(7 < k) by {
                if k <= 7 {
                    assert(!is_separator(t[7]));
                }
            }
        }
        if is_verbatim_share(s) {
            separator_bounds(s, 8, true);
            let server = next_separator(s, 8, true);
            separator_bounds(s, server + 1, true);
            let share = next_separator(s, server + 1, true);
            assert(server < k);
            separator_found(t, 8, server, true);
            if share > server + 1 {
                separator_found(t, server + 1, share, true);
            } else {
                assert(is_rooted(s));
                assert(server + 1 <= start);
                assert(share == server + 1);
                separator_found(t, server + 1, share, true);
            }
        } else if is_verbatim_drive(s) {
            assert(t[6] == s[6]);
        } else {
            if is_verbatim_drive(t) {
                assert(5 < k) by {
                    if k == 5 {
                        assert(t[5] == '.');
                    }
                }
                assert(6 < k) by {
                    if k <= 6 {
                        assert(!is_separator(t[6]));
                    }
                }
            }
            separator_bounds(s, 4, true);
            separator_found(t, 4, p, true);
        }
    } else {
        if is_device(t) {
            assert(3 < k) by {
                if k <= 3 {
                    assert(!is_separator(t[3]));
                }
            }
        }
        if is_device(s) {
            separator_bounds(s, 4, false);
            assert(k > 4);
            separator_found(t, 4, p, false);
        } else if s.len() >= 2 && is_separator(s[0]) && is_separator(s[1]) {
            separator_bounds(s, 2, false);
            let server = next_separator(s, 2, false);
            separator_bounds(s, server + 1, false);
            let share = next_separator(s, server + 1, false);
            assert(start >= 2) by {
                if p == 0 {
                    assert(is_rooted(s));
                    if start == 1 {
                        assert(!separates(s[1], is_verbatim(s)));
                    }
                }
            }
            if p > 0 {
                assert(share < k);
                separator_found(t, 2, server, false);
                separator_found(t, server + 1, share, false);
            } else if server >= k {
                assert forall|i: int| 2 <= i < t.len() implies !separates(
                    #[trigger] t[i],
                    false,
                ) by {
                    if i < k {
                        assert(!separates(s[i], false));
                    } else {
                        assert(!is_separator(t[i]));
                    }
                }
                separator_found(t, 2, t.len() as int, false);
            } else {
                assert(separates(s[server], false));
                assert(server < start) by {
                    if start <= server {
                        assert(!separates(s[server], is_verbatim(s)));
                    }
                }
                separator_found(t, 2, server, false);
                if server > 2 {
                    assert(share == server + 1);
                    assert(share < s.len());
                    assert(separates(s[share], false));
                    assert(share < k);
                    separator_found(t, server + 1, share, false);
                }
            }
        } else {
            if t.len() >= 2 && is_separator(t[0]) && is_separator(t[1]) {
                assert(1 < k) by {
                    if k <= 1 {
                        assert(!is_separator(t[1]));
                    }
                }
            }
            if has_drive(t) {
                assert(1 < k);
            }
        }
    }
    assert(prefix_len(t) == p);
    assert(t[p] == s[p]);
    if starts_here(t) {
        assert(p + 1 < k) by {
            if k <= p + 1 {
                assert(!is_separator(t[p + 1]));
            }
        }
    }
    if starts_here(s) {
        assert(t[p + 1] == s[p + 1]);
    }
}

/// Changing the extension of a file gives a file of the same stem in the same
/// directory that has the new extension.
pub proof fn extension_is_replaced(s: Seq<char>, e: Seq<char>)
    requires
        file_name_of(s) is Some,
        is_extension(e),
    ensures
        extension_of(extended(s, e)) == Some(e),
        stem_of(extended(s, e)) == stem_of(s),
        name_start(extended(s, e), name_end(extended(s, e))) == name_start(s, name_end(s)),
{
    prefix_bounds(s);
    trimmed_bounds(s, s.len() as int);
    let end = name_end(s);
    start_between(s, end);
    let start = name_start(s, end);
    let name = s.subrange(start, end);
    dot_bounds(name, name.len() as int);
    let k = start + stem_len(name);
    let t = extended(s, e);
    assert(t =~= s.take(k) + seq!['.'] + e);
    assert forall|i: int| k <= i < t.len() implies !is_separator(#[trigger] t[i]) by {
        if i > k {
            assert(t[i] == e[i - k - 1]);
        }
    }
    prefix_kept(s, t, start, k);
    assert(t.last() == e[e.len() - 1]);
    assert(name_end(t) == t.len());
    assert forall|i: int| start <= i < t.len() implies !separates(
        #[trigger] t[i],
        is_verbatim(t),
    ) by {
        if i < k {
            assert(!separates(s[i], is_verbatim(s)));
        } else {
            assert(!is_separator(t[i]));
        }
    }
    start_at_separator(s, end);
    if start > body_start(s) {
        assert(t[start - 1] == s[start - 1]);
    }
    start_found(t, start, t.len() as int);
    let fresh = t.subrange(start, t.len() as int);
    let dot = k - start;
    assert forall|i: int| dot < i < fresh.len() implies fresh[i] != '.' by {
        assert(fresh[i] == e[i - dot - 1]);
    }
    dot_found(fresh, dot, fresh.len() as int);
    assert(fresh.skip(dot + 1) =~= e);
    assert(fresh.take(dot) =~= name.take(dot));
    assert(fresh.len() >= 3);
    if fresh =~= seq!['.'] || fresh =~= seq!['.', '.'] {
        assert(fresh.len() < 3);
    }
}

proof fn start_at_separator(s: Seq<char>, end: int)
    requires
        body_start(s) <= end <= s.len(),
    ensures
        name_start(s, end) == body_start(s) || separates(
            s[name_start(s, end) - 1],
            is_verbatim(s),
        ),
    decreases end,
{
    prefix_bounds(s);
    if end > body_start(s) && !separates(s[end - 1], is_verbatim(s)) {
        start_at_separator(s, end - 1);
    }
}

/// Whether a text can stand as the name of a file anywhere.
pub open spec fn is_plain(name: Seq<char>) -> bool {
    &&& name.len() > 2
    &&& name.last() != '.'
    &&& forall|i: int| 0 <= i < name.len() ==> !is_separator(#[trigger] name[i]) && name[i] != ':'
}

/// A plain name at the end of a path is its file name, unless it is part of the
/// prefix.
proof fn plain_end(t: Seq<char>, name: Seq<char>)
    requires
        is_plain(name),
        t.len() >= name.len(),
        t.skip(t.len() - name.len()) == name,
        prefix_len(t) < t.len(),
        t.len() == name.len() || separates(t[t.len() - name.len() - 1], is_verbatim(t)) || (t.len()
            - name.len() == 2 && has_drive(t)),
    ensures
        file_name_of(t) == Some(name),
        name_end(t) == t.len(),
        name_start(t, name_end(t)) == t.len() - name.len(),
{
    let start = t.len() - name.len();
    assert forall|i: int| start <= i < t.len() implies !is_separator(#[trigger] t[i]) && t[i]
        != ':' by {
        assert(t[i] == name[i - start]);
    }
    prefix_bounds(t);
    separator_bounds(t, 4, true);
    separator_bounds(t, 4, false);
    separator_bounds(t, 2, false);
    separator_bounds(t, next_separator(t, 2, false) + 1, false);
    if t.len() >= 8 {
        separator_bounds(t, 8, true);
        separator_bounds(t, next_separator(t, 8, true) + 1, true);
    }
    let p = prefix_len(t);
    assert(p <= start) by {
        if p > start {
            assert(!is_separator(t[p]));
            assert(t[p - 1] != ':');
        }
    }
    assert(body_start(t) <= start) by {
        if p == start {
            assert(!is_separator(t[p]) && !is_separator(t[p + 1]));
        }
    }
    assert(t.last() == name.last());
    assert(!is_separator(t[t.len() - 1]));
    assert(name_end(t) == t.len());
    if has_drive(t) && start == 2 {
        assert(p == 2);
    }
    start_found(t, start, t.len() as int);
    assert(t.subrange(start, t.len() as int) =~= name);
    if name =~= seq!['.'] || name =~= seq!['.', '.'] {
        assert(name.len() <= 2);
    }
}

proof fn plain_is_one_piece(name: Seq<char>, n: int)
    requires
        0 <= n <= name.len(),
        forall|i: int| 0 <= i < name.len() ==> !is_separator(#[trigger] name[i]),
    ensures
        pieces(name.take(n), false) == (Seq::<Seq<char>>::empty(), name.take(n)),
    decreases n,
{
    if n > 0 {
        plain_is_one_piece(name, n - 1);
        assert(name.take(n).drop_last() =~= name.take(n - 1));
        assert(!is_separator(name[n - 1]));
        assert(name.take(n) =~= name.take(n - 1).push(name[n - 1]));
    } else {
        assert(name.take(0) =~= Seq::empty());
    }
}

/// A plain name, appended to a path, is the file name of the result, unless the two
/// together are no more than a prefix, as `\\server` and a name are.
pub proof fn joined_name(dir: Seq<char>, name: Seq<char>)
    requires
        is_plain(name),
        prefix_len(joined(dir, name)) < joined(dir, name).len(),
    ensures
        file_name_of(joined(dir, name)) == Some(name),
{
    assert(!is_separator(name[0]) && !is_separator(name[1]) && name[1] != ':');
    assert(prefix_len(name) == 0);
    let t = joined(dir, name);
    let start = t.len() - name.len();
    prefix_bounds(dir);
    if is_verbatim(dir) {
        plain_is_one_piece(name, name.len() as int);
        assert(name.take(name.len() as int) =~= name);
        let before = components_of(dir.skip(body_start(dir)), true);
        let steps = components_of(name, false);
        assert(steps =~= seq![name]);
        assert(steps.drop_last() =~= Seq::empty());
        assert(name != seq!['.'] && name != seq!['.', '.']);
        let all = walked(before, steps);
        assert(walked(before, Seq::<Seq<char>>::empty()) == before);
        assert(all == before.push(name));
        assert(all.drop_last() =~= before);
        let prefix = dir.take(prefix_len(dir));
        assert(t =~= prefix + separated(before) + seq!['\\'] + name);
        assert(forall|i: int| 0 <= i < 4 ==> t[i] == dir[i]);
    } else if is_verbatim(t) {
        // Only a name that completes the prefix can make a path verbatim.
        assert(dir.len() >= 3) by {
            if dir.len() < 3 {
                assert(t[3] == name[3 - start]);
            }
        }
        assert(dir.len() == 3) by {
            if dir.len() > 3 {
                assert(forall|i: int| 0 <= i < 4 ==> t[i] == dir[i]);
            }
        }
        assert(start == 4) by {
            if start == 3 {
                assert(t[3] == name[0]);
            }
        }
        assert forall|i: int| 4 <= i < t.len() implies !separates(#[trigger] t[i], true) && t[i]
            != ':' && !is_separator(t[i]) by {
            assert(t[i] == name[i - start]);
        }
        separator_found(t, 4, t.len() as int, true);
        assert(false);
    }
    assert(t.skip(start) =~= name);
    if start > 0 && !is_verbatim(dir) {
        if start == dir.len() {
            assert(t[start - 1] == dir[start - 1]);
            if dir.len() == 2 {
                assert(t[0] == dir[0] && t[1] == dir[1]);
            }
        } else {
            assert(t[start - 1] == '\\');
        }
    }
    plain_end(t, name);
}

/// The stem of a name ends at its last dot, where that is not the first
/// character.
pub proof fn stem_before_dot(name: Seq<char>, dot: int)
    requires
        0 < dot < name.len(),
        name[dot] == '.',
        forall|i: int| dot < i < name.len() ==> name[i] != '.',
    ensures
        stem_len(name) == dot,
{
    dot_found(name, dot, name.len() as int);
}

/// Where the text of a path is a directory, a separator of either kind and a name,
/// the name is that of the file, whatever the directory holds: a drive, dots,
/// separators in a row. A name by itself is its own file name.
pub proof fn files_are_named_last(dir: Seq<char>, separator: char, name: Seq<char>)
    requires
        separator == '/' || separator == '\\',
        dir.len() > 0,
        dir[0] != '/' && dir[0] != '\\',
        is_plain(name),
    ensures
        file_name_of(dir + seq![separator] + name) == Some(name),
        file_name_of(name) == Some(name),
{
    files_end_in_their_name(dir, separator, name);
}

/// A file name is its stem, and its extension behind a dot where it has one: the
/// last dot parts them, unless it is the first character. The stem is never empty.
pub proof fn names_are_stem_and_extension(s: Seq<char>)
    ensures
        file_name_of(s) is None ==> stem_of(s) is None && extension_of(s) is None,
        file_name_of(s) matches Some(name) ==> stem_of(s) matches Some(stem) && {
            &&& stem.len() > 0
            &&& match extension_of(s) {
                Some(extension) => {
                    &&& name == stem + seq!['.'] + extension
                    &&& forall|i: int| 0 <= i < extension.len() ==> #[trigger] extension[i] != '.'
                },
                None => {
                    &&& name == stem
                    &&& forall|i: int| 0 < i < name.len() ==> #[trigger] name[i] != '.'
                },
            }
        },
{
    if let Some(name) = file_name_of(s) {
        dot_bounds(name, name.len() as int);
        no_dot_follows(name, name.len() as int);
        let n = stem_len(name);
        if n < name.len() {
            assert(name =~= name.take(n) + seq!['.'] + name.skip(n + 1));
            let extension = name.skip(n + 1);
            assert forall|i: int| 0 <= i < extension.len() implies #[trigger] extension[i]
                != '.' by {
                assert(extension[i] == name[n + 1 + i]);
            }
        } else {
            assert(name.take(n) =~= name);
        }
    }
}

proof fn no_dot_follows(name: Seq<char>, n: int)
    requires
        0 <= n <= name.len(),
    ensures
        forall|i: int| last_dot(name, n) < i < n ==> #[trigger] name[i] != '.',
    decreases n,
{
    if n > 0 && name[n - 1] != '.' {
        no_dot_follows(name, n - 1);
    }
}

/// Another extension changes what follows the last dot of the name and nothing
/// before it.
#[verifier::spinoff_prover]
pub proof fn extensions_are_written_at_the_end(
    dir: Seq<char>,
    separator: char,
    stem: Seq<char>,
    old_extension: Seq<char>,
    extension: Seq<char>,
)
    requires
        separator == '/' || separator == '\\',
        dir.len() > 0,
        dir[0] != '/' && dir[0] != '\\',
        stem.len() > 0,
        is_plain(stem + seq!['.'] + old_extension),
        is_extension(old_extension),
        extension.len() > 0,
    ensures
        extended(
            dir + seq![separator] + (stem + seq!['.'] + old_extension),
            extension,
        ) == dir + seq![separator] + stem + seq!['.'] + extension,
        extended(stem + seq!['.'] + old_extension, extension) == stem + seq!['.'] + extension,
{
    let name = stem + seq!['.'] + old_extension;
    files_end_in_their_name(dir, separator, name);
    assert forall|i: int| stem.len() < i < name.len() implies name[i] != '.' by {
        assert(name[i] == old_extension[i - stem.len() - 1]);
    }
    stem_before_dot(name, stem.len() as int);
    let s = dir + seq![separator] + name;
    assert(s.take(s.len() - name.len() + stem.len()) =~= dir + seq![separator] + stem);
    assert(name.take(stem.len() as int) =~= stem);
}

proof fn files_end_in_their_name(dir: Seq<char>, separator: char, name: Seq<char>)
    requires
        is_separator(separator),
        dir.len() > 0,
        !is_separator(dir[0]),
        is_plain(name),
    ensures
        ({
            let s = dir + seq![separator] + name;
            &&& file_name_of(s) == Some(name)
            &&& name_start(s, name_end(s)) == s.len() - name.len()
        }),
        file_name_of(name) == Some(name),
        name_start(name, name_end(name)) == 0,
{
    let s = dir + seq![separator] + name;
    assert(!is_separator(name[0]) && name[1] != ':');
    assert(name.skip(0) =~= name);
    plain_end(name, name);
    assert(s[0] == dir[0]);
    assert(s.skip(s.len() - name.len()) =~= name);
    assert(s[s.len() - name.len() - 1] == separator);
    plain_end(s, name);
}

/// A name goes behind a directory with one separator between them: a `\` unless the
/// directory ends in a separator, is empty or is a bare drive. A path with a drive
/// of its own replaces the directory, and one that begins with a separator all of it
/// but its drive.
pub proof fn joining_appends_a_name(dir: Seq<char>, name: Seq<char>)
    requires
        name.len() > 0,
        dir.len() == 0 || !(dir[0] == '/' || dir[0] == '\\'),
        name.len() == 1 || !((name[0] == '/' || name[0] == '\\') && (name[1] == '/' || name[1]
            == '\\')),
    ensures
        ({
            let names_drive = |s: Seq<char>|
                s.len() >= 2 && s[1] == ':' && ('a' <= s[0] && s[0] <= 'z' || 'A' <= s[0] && s[0]
                    <= 'Z');
            let rooted = name[0] == '/' || name[0] == '\\';
            let open = dir.len() == 0 || dir.last() == '/' || dir.last() == '\\' || (dir.len() == 2
                && names_drive(dir));
            joined(dir, name) == (if names_drive(name) {
                name
            } else if rooted && names_drive(dir) {
                dir.take(2) + name
            } else if rooted {
                name
            } else if open {
                dir + name
            } else {
                dir + seq!['\\'] + name
            })
        }),
{
    assert(dir.take(0) + name =~= name);
}

/// Another file name leaves the directory as it is.
pub proof fn renaming_keeps_the_directory(
    dir: Seq<char>,
    separator: char,
    name: Seq<char>,
    other: Seq<char>,
)
    requires
        separator == '/' || separator == '\\',
        dir.len() > 0,
        dir[0] != '/' && dir[0] != '\\',
        dir.last() != '/' && dir.last() != '\\' && dir.last() != '.' && dir.last() != ':',
        is_plain(name),
        is_plain(other),
    ensures
        renamed(dir + seq![separator] + name, other) == dir + seq!['\\'] + other,
        renamed(name, other) == other,
{
    let s = dir + seq![separator] + name;
    let start = dir.len() as int + 1;
    assert(!is_separator(name[0]) && name[1] != ':');
    assert(!is_separator(other[0]) && other[1] != ':');
    assert(name.skip(0) =~= name);
    plain_end(name, name);
    assert(name.take(0) =~= Seq::<char>::empty());
    assert(body_start(name) == 0) by {
        if starts_here(name) {
            assert(!is_separator(name[1]));
        }
    }
    assert(renamed(name, other) =~= other);
    assert(s[0] == dir[0]);
    assert(s.skip(s.len() - name.len()) =~= name);
    assert(s[start - 1] == separator);
    plain_end(s, name);
    assert(s[start - 2] == dir.last());
    if has_drive(s) {
        if dir.len() == 1 {
            assert(s[1] == separator);
        } else {
            assert(s[1] == dir[1]);
            assert(dir.len() > 2);
        }
    }
    assert(body_start(s) <= dir.len()) by {
        if starts_here(s) {
            let p = prefix_len(s);
            assert(s[p] == dir[p] || p >= dir.len());
        }
    }
    assert(trimmed_end(s, start) == trimmed_end(s, start - 1));
    assert(trimmed_end(s, start - 1) == start - 1);
    assert(s.take(start - 1) =~= dir);
}

/// What follows a path and means nothing does not change the file that it names: a
/// separator, or a separator and a dot. Two dots behind it lead up, so that the path
/// names no file.
pub proof fn trailing_marks_mean_nothing(s: Seq<char>, separator: char)
    requires
        separator == '/' || separator == '\\',
        s.len() > 0,
        s[0] != '/' && s[0] != '\\',
        s.last() != ':',
    ensures
        file_name_of(s + seq![separator]) == file_name_of(s),
        file_name_of(s + seq![separator, '.']) == file_name_of(s),
        file_name_of(s + seq![separator, '.', '.']) is None,
{
    let a = s + seq![separator];
    let b = s + seq![separator, '.'];
    let c = s + seq![separator, '.', '.'];
    let n = s.len() as int;
    prefix_bounds(s);
    assert(a.take(n) =~= s);
    assert(b.take(n) =~= s);
    assert(c.take(n) =~= s);
    longer_path_begins_alike(s, a);
    longer_path_begins_alike(s, b);
    longer_path_begins_alike(s, c);
    trimmed_bounds(s, n);
    start_between(s, name_end(s));
    ends_alike(s, a, n);
    starts_alike(s, a, name_end(s));
    assert(a[n] == separator);
    assert(name_end(a) == trimmed_end(a, n));
    assert(last_component(a) =~= last_component(s));
    ends_alike(s, b, n);
    starts_alike(s, b, name_end(s));
    assert(b[n] == separator && b[n + 1] == '.');
    assert(trimmed_end(b, n + 2) == trimmed_end(b, n + 1));
    assert(trimmed_end(b, n + 1) == trimmed_end(b, n));
    assert(last_component(b) =~= last_component(s));
    assert(c[n] == separator && c[n + 1] == '.' && c[n + 2] == '.');
    assert(name_end(c) == n + 3);
    start_found(c, n + 1, n + 3);
    assert(last_component(c) =~= seq!['.', '.']);
}

proof fn longer_path_begins_alike(s: Seq<char>, t: Seq<char>)
    requires
        0 < s.len() < t.len(),
        t.take(s.len() as int) == s,
        is_separator(t[s.len() as int]),
        !is_separator(s[0]),
        s.last() != ':',
    ensures
        body_start(t) == body_start(s),
        !is_verbatim(t),
        !is_verbatim(s),
{
    assert forall|i: int| 0 <= i < s.len() implies t[i] == s[i] by {
        assert(t.take(s.len() as int)[i] == s[i]);
    }
}

proof fn ends_alike(s: Seq<char>, t: Seq<char>, end: int)
    requires
        0 <= end <= s.len() < t.len(),
        t.take(s.len() as int) == s,
        body_start(t) == body_start(s),
        !is_verbatim(t),
        !is_verbatim(s),
    ensures
        trimmed_end(t, end) == trimmed_end(s, end),
    decreases end,
{
    prefix_bounds(s);
    if end > 0 {
        assert(t.take(s.len() as int)[end - 1] == s[end - 1]);
        if end > 1 {
            assert(t.take(s.len() as int)[end - 2] == s[end - 2]);
        }
        ends_alike(s, t, end - 1);
    }
}

proof fn starts_alike(s: Seq<char>, t: Seq<char>, end: int)
    requires
        0 <= end <= s.len() < t.len(),
        t.take(s.len() as int) == s,
        body_start(t) == body_start(s),
        !is_verbatim(t),
        !is_verbatim(s),
    ensures
        name_start(t, end) == name_start(s, end),
    decreases end,
{
    prefix_bounds(s);
    if end > 0 {
        assert(t.take(s.len() as int)[end - 1] == s[end - 1]);
        starts_alike(s, t, end - 1);
    }
}

/// A network share is a server and a name behind two separators. By itself it names
/// no file; a name behind it does.
pub proof fn shares_are_no_files(server: Seq<char>, share: Seq<char>, name: Seq<char>)
    requires
        server.len() > 0,
        share.len() > 0,
        server[0] != '?' && server[0] != '.',
        forall|i: int|
            0 <= i < server.len() ==> #[trigger] server[i] != '/' && server[i] != '\\',
        forall|i: int| 0 <= i < share.len() ==> #[trigger] share[i] != '/' && share[i] != '\\',
        is_plain(name),
    ensures
        ({
            let root = seq!['\\', '\\'] + server + seq!['\\'] + share;
            &&& prefix_len(root) == root.len()
            &&& file_name_of(root) is None
            &&& file_name_of(root + seq!['\\'] + name) == Some(name)
        }),
{
    let root = seq!['\\', '\\'] + server + seq!['\\'] + share;
    let t = root + seq!['\\'] + name;
    let middle = server.len() as int + 2;
    let end = root.len() as int;
    assert(root[2] == server[0] && t[2] == server[0]);
    assert forall|i: int| 2 <= i < middle implies !separates(#[trigger] root[i], false)
        && !separates(t[i], false) by {
        assert(root[i] == server[i - 2] && t[i] == server[i - 2]);
    }
    assert forall|i: int| middle < i < end implies !separates(#[trigger] root[i], false)
        && !separates(t[i], false) by {
        assert(root[i] == share[i - middle - 1] && t[i] == share[i - middle - 1]);
    }
    assert(root[middle] == '\\' && t[middle] == '\\' && t[end] == '\\');
    separator_found(root, 2, middle, false);
    separator_found(root, middle + 1, end, false);
    assert forall|i: int| 2 <= i < middle implies !separates(#[trigger] t[i], false) by {
        assert(!separates(root[i], false));
    }
    assert forall|i: int| middle < i < end implies !separates(#[trigger] t[i], false) by {
        assert(!separates(root[i], false));
    }
    separator_found(t, 2, middle, false);
    separator_found(t, middle + 1, end, false);
    assert(prefix_len(root) == end);
    assert(prefix_len(t) == end);
    assert(name_end(root) == end);
    assert(last_component(root) =~= Seq::<char>::empty());
    assert(t.skip(t.len() - name.len()) =~= name);
    plain_end(t, name);
}

/// Under a verbatim drive only `\` parts components: a name behind it may hold `/`,
/// and is the file name as it stands.
pub proof fn verbatim_names_stand_as_they_are(
    drive: char,
    dir: Seq<char>,
    name: Seq<char>,
)
    requires
        'a' <= drive && drive <= 'z' || 'A' <= drive && drive <= 'Z',
        name.len() > 2,
        forall|i: int| 0 <= i < name.len() ==> #[trigger] name[i] != '\\',
    ensures
        file_name_of(
            seq!['\\', '\\', '?', '\\', drive, ':', '\\'] + dir + seq!['\\'] + name,
        ) == Some(name),
{
    let root = seq!['\\', '\\', '?', '\\', drive, ':', '\\'];
    let t = root + dir + seq!['\\'] + name;
    let start = t.len() - name.len();
    assert(forall|i: int| 0 <= i < 7 ==> t[i] == root[i]);
    assert(t[4] == drive && t[5] == ':' && t[6] == '\\');
    assert(is_verbatim(t));
    assert(!is_verbatim_share(t)) by {
        assert(t[5] != 'N');
    }
    assert(prefix_len(t) == 6);
    assert(body_start(t) == 7);
    assert(t[start - 1] == '\\');
    assert forall|i: int| start <= i < t.len() implies !separates(#[trigger] t[i], true) by {
        assert(t[i] == name[i - start]);
    }
    assert(!separates(t[t.len() - 1], true));
    assert(name_end(t) == t.len());
    start_found(t, start, t.len() as int);
    assert(last_component(t) =~= name);
}

/// A device and a verbatim name are prefixes as a whole: they name no file.
pub proof fn prefixes_name_no_file(name: Seq<char>)
    requires
        name.len() > 0,
        forall|i: int| 0 <= i < name.len() ==> #[trigger] name[i] != '/' && name[i] != '\\',
    ensures
        file_name_of(seq!['\\', '\\', '.', '\\'] + name) is None,
        file_name_of(seq!['\\', '\\', '?', '\\'] + name) is None,
{
    let device = seq!['\\', '\\', '.', '\\'] + name;
    let verbatim = seq!['\\', '\\', '?', '\\'] + name;
    let end = device.len() as int;
    assert forall|i: int| 4 <= i < end implies !separates(#[trigger] device[i], false) by {
        assert(device[i] == name[i - 4]);
    }
    assert forall|i: int| 4 <= i < end implies !separates(#[trigger] verbatim[i], true)
        && !is_separator(verbatim[i]) by {
        assert(verbatim[i] == name[i - 4]);
    }
    separator_found(device, 4, end, false);
    separator_found(verbatim, 4, end, true);
    assert(device[2] == '.' && verbatim[2] == '?');
    assert(prefix_len(device) == end);
    assert(prefix_len(verbatim) == end) by {
        if is_verbatim_share(verbatim) {
            assert(!is_separator(verbatim[7]));
        }
        if is_verbatim_drive(verbatim) && end > 6 {
            assert(!is_separator(verbatim[6]));
        }
    }
    assert(name_end(device) == end && name_end(verbatim) == end);
    assert(last_component(device) =~= Seq::<char>::empty());
    assert(last_component(verbatim) =~= Seq::<char>::empty());
}

/// A text is taken apart at its separators, and at nothing else: the components of two
/// texts around one are those of the one and then those of the other. `\` always
/// separates, `/` only outside a verbatim path; there is no empty component.
pub proof fn components_are_parted_at_separators(
    a: Seq<char>,
    separator: char,
    b: Seq<char>,
    verbatim: bool,
)
    requires
        separator == '\\' || (separator == '/' && !verbatim),
    ensures
        components_of(a + seq![separator] + b, verbatim) == components_of(a, verbatim)
            + components_of(b, verbatim),
        components_of(Seq::empty(), verbatim) == Seq::<Seq<char>>::empty(),
        a.len() > 0 && (forall|i: int|
            0 <= i < a.len() ==> #[trigger] a[i] != '\\' && (a[i] != '/' || verbatim))
            ==> components_of(a, verbatim) == seq![a],
{
    pieces_go_on(a, separator, b, verbatim);
    assert(components_of(a + seq![separator] + b, verbatim) =~= components_of(a, verbatim)
        + components_of(b, verbatim));
    if forall|i: int|
        0 <= i < a.len() ==> #[trigger] a[i] != '\\' && (a[i] != '/' || verbatim) {
        one_piece(a, verbatim);
        assert(a.len() > 0 ==> components_of(a, verbatim) =~= seq![a]);
    }
}

proof fn pieces_go_on(a: Seq<char>, separator: char, b: Seq<char>, verbatim: bool)
    requires
        separates(separator, verbatim),
    ensures
        pieces(a + seq![separator] + b, verbatim) == (
            components_of(a, verbatim) + pieces(b, verbatim).0,
            pieces(b, verbatim).1,
        ),
    decreases b.len(),
{
    let s = a + seq![separator] + b;
    if b.len() == 0 {
        assert(s.drop_last() =~= a);
        assert(s.last() == separator);
        assert(components_of(a, verbatim) + pieces(b, verbatim).0 =~= components_of(a, verbatim));
        assert(pieces(a, verbatim).1.len() == 0 ==> pieces(a, verbatim).1 =~= Seq::<char>::empty());
    } else {
        assert(s.drop_last() =~= a + seq![separator] + b.drop_last());
        assert(s.last() == b.last());
        pieces_go_on(a, separator, b.drop_last(), verbatim);
        let (closed, open) = pieces(b.drop_last(), verbatim);
        assert((components_of(a, verbatim) + closed).push(open) =~= components_of(a, verbatim)
            + closed.push(open));
    }
}

proof fn one_piece(s: Seq<char>, verbatim: bool)
    requires
        forall|i: int| 0 <= i < s.len() ==> !separates(#[trigger] s[i], verbatim),
    ensures
        pieces(s, verbatim) == (Seq::<Seq<char>>::empty(), s),
    decreases s.len(),
{
    if s.len() > 0 {
        assert(!separates(s[s.len() - 1], verbatim));
        assert forall|i: int| 0 <= i < s.drop_last().len() implies !separates(
            #[trigger] s.drop_last()[i],
            verbatim,
        ) by {
            assert(!separates(s[i], verbatim));
        }
        one_piece(s.drop_last(), verbatim);
        assert(s.drop_last().push(s.last()) =~= s);
    } else {
        assert(s =~= Seq::empty());
    }
}

/// Walking a path goes step by step: a dot stays, two dots lead back out of a named
/// component, and a name leads into it. What is written has one `\` before each
/// component.
pub proof fn paths_are_walked_step_by_step(
    components: Seq<Seq<char>>,
    steps: Seq<Seq<char>>,
    step: Seq<char>,
    name: Seq<char>,
)
    requires
        name != seq!['.'],
        name != seq!['.', '.'],
    ensures
        walked(components, Seq::empty()) == components,
        walked(components, steps.push(name)) == walked(components, steps).push(name),
        walked(components, steps.push(seq!['.'])) == walked(components, steps),
        walked(components, steps.push(name).push(seq!['.', '.'])) == walked(components, steps),
        walked(Seq::empty(), seq![seq!['.', '.']]) == Seq::<Seq<char>>::empty(),
        separated(Seq::empty()) == Seq::<char>::empty(),
        separated(components.push(step)) == separated(components) + seq!['\\'] + step,
{
    assert(steps.push(name).drop_last() =~= steps);
    assert(steps.push(seq!['.']).drop_last() =~= steps);
    assert(steps.push(name).push(seq!['.', '.']).drop_last() =~= steps.push(name));
    assert(seq!['.'].len() == 1 && seq!['.', '.'].len() == 2);
    assert(seq!['.', '.'] != seq!['.']);
    let inside = walked(components, steps.push(name));
    assert(inside == walked(components, steps).push(name));
    assert(inside.last() == name);
    assert(steps.push(name).push(seq!['.', '.']).last() == seq!['.', '.']);
    assert(walked(components, steps).push(name).drop_last() =~= walked(components, steps));
    assert(components.push(step).drop_last() =~= components);
    let up = seq![seq!['.', '.']];
    assert(up.drop_last() =~= Seq::<Seq<char>>::empty());
    assert(walked(Seq::<Seq<char>>::empty(), up.drop_last()) == Seq::<Seq<char>>::empty());
}

/// A relative path appended to one on a verbatim drive is walked from its components;
/// one that begins with a separator is walked from the drive.
pub proof fn verbatim_paths_are_walked(drive: char, dir: Seq<char>, name: Seq<char>)
    requires
        'a' <= drive && drive <= 'z' || 'A' <= drive && drive <= 'Z',
        name.len() > 0,
        name.len() == 1 || (name[1] != ':' && name[1] != '/' && name[1] != '\\'),
    ensures
        ({
            let root = seq!['\\', '\\', '?', '\\', drive, ':'];
            let from = if name[0] == '/' || name[0] == '\\' {
                Seq::empty()
            } else {
                components_of(dir, true)
            };
            let components = walked(from, components_of(name, false));
            components.len() > 0 ==> joined(root + seq!['\\'] + dir, name) == root + separated(
                components,
            )
        }),
{
    let root = seq!['\\', '\\', '?', '\\', drive, ':'];
    let s = root + seq!['\\'] + dir;
    assert(forall|i: int| 0 <= i < 6 ==> s[i] == root[i]);
    assert(s[4] == drive && s[5] == ':' && s[6] == '\\');
    assert(is_verbatim(s));
    assert(!is_verbatim_share(s)) by {
        assert(s[5] != 'N');
    }
    assert(prefix_len(s) == 6);
    assert(body_start(s) == 7);
    assert(s.take(6) =~= root);
    assert(s.skip(7) =~= dir);
    assert(prefix_len(name) == 0);
}

} // verus!
