use vstd::prelude::*;

use crate::numeric::push_char;

verus! {

/// How a program is started inside a scope: the program, its arguments,
/// the value of the search-path variable and the nesting level of scopes.
pub struct Launch {
    pub program: String,
    pub args: Vec<String>,
    pub path: String,
    pub scope: usize,
}

/// `dirs` joined by `delim`.
pub open spec fn path_list(dirs: Seq<Seq<char>>, delim: char) -> Seq<char>
    decreases dirs.len(),
{
    if dirs.len() == 0 {
        Seq::empty()
    } else if dirs.len() == 1 {
        dirs[0]
    } else {
        path_list(dirs.drop_last(), delim).push(delim) + dirs.last()
    }
}

/// The search-path variable: the directories of the scope first, then, after
/// one more `delim`, the value the variable had, if it had one.
pub open spec fn path_value(dirs: Seq<Seq<char>>, current: Option<Seq<char>>, delim: char) -> Seq<
    char,
> {
    match current {
        Some(p) => path_list(dirs, delim).push(delim) + p,
        None => path_list(dirs, delim),
    }
}

/// The view of a list of strings.
pub open spec fn strings_view(v: Seq<String>) -> Seq<Seq<char>> {
    v.map_values(|s: String| s@)
}

/// The view of an optional string.
pub open spec fn str_option_view(o: Option<&str>) -> Option<Seq<char>> {
    match o {
        Some(s) => Some(s@),
        None => None,
    }
}

/// The value of the search-path variable inside a scope.
pub fn search_path_value(dirs: &Vec<String>, current: Option<&str>, delim: char) -> (r: String)
    ensures
        r@ == path_value(strings_view(dirs@), str_option_view(current), delim),
{
    let ghost ds = strings_view(dirs@);
    let mut r = String::new();
    let mut i: usize = 0;
    while i < dirs.len()
        invariant
            i <= dirs@.len(),
            ds == strings_view(dirs@),
            r@ == path_list(ds.take(i as int), delim),
        decreases dirs@.len() - i,
    {
        if i > 0 {
            push_char(&mut r, delim);
        }
        r.append(dirs[i].as_str());
        proof {
            let next = ds.take(i + 1);
            assert(next.drop_last() =~= ds.take(i as int));
            assert(next.last() == dirs@[i as int]@);
            if i == 0 {
                assert(next[0] == dirs@[0]@);
            }
            assert(r@ =~= path_list(next, delim));
        }
        i = i + 1;
    }
    assert(ds.take(i as int) =~= ds);
    match current {
        Some(p) => {
            push_char(&mut r, delim);
            r.append(p);
        },
        None => {},
    }
    r
}

/// The nesting level of a new scope: one more than the level of the scope
/// it is started from, or 1 outside any scope.
pub fn next_scope(last: Option<usize>) -> (r: usize)
    requires
        last matches Some(l) ==> l < usize::MAX,
    ensures
        r == match last {
            Some(l) => l + 1,
            None => 1,
        },
{
    match last {
        Some(l) => l + 1,
        None => 1,
    }
}

/// The plan for running a command in a scope: the first of `args` is the
/// program and the rest its arguments; without arguments the `shell` is run,
/// or else `fallback`. `dirs` go first on the search path, before the
/// `current_path`; `last_scope` is the level of the scope this is started from.
pub fn exec(
    args: Vec<String>,
    shell: Option<String>,
    fallback: &str,
    dirs: &Vec<String>,
    current_path: Option<&str>,
    delim: char,
    last_scope: Option<usize>,
) -> (r: Launch)
    requires
        last_scope matches Some(l) ==> l < usize::MAX,
    ensures
        args@.len() > 0 ==> r.program == args@[0] && r.args@ == args@.drop_first(),
        args@.len() == 0 ==> r.args@.len() == 0 && match shell {
            Some(s) => r.program == s,
            None => r.program@ == fallback@,
        },
        r.path@ == path_value(strings_view(dirs@), str_option_view(current_path), delim),
        r.scope == match last_scope {
            Some(l) => l + 1,
            None => 1,
        },
{
    let mut rest = args;
    let program = if rest.len() > 0 {
        rest.remove(0)
    } else {
        match shell {
            Some(s) => s,
            None => String::from_str(fallback),
        }
    };
    proof {
        if args@.len() > 0 {
            assert(rest@ =~= args@.drop_first());
        }
    }
    Launch {
        program,
        args: rest,
        path: search_path_value(dirs, current_path, delim),
        scope: next_scope(last_scope),
    }
}

} // verus!
