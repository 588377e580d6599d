use vstd::prelude::*;
use vstd::string::StrSliceExecFns;

verus! {

/// A character that may appear in a symbol name.
pub open spec fn is_symbol_char(c: char) -> bool {
    ('a' <= c && c <= 'z') || ('A' <= c && c <= 'Z') || c == '_'
}

/// A nonempty run of ASCII letters and underscores.
pub open spec fn is_symbol_name(s: Seq<char>) -> bool {
    s.len() > 0 && forall|i: int| 0 <= i < s.len() ==> is_symbol_char(#[trigger] s[i])
}

/// No name occurs twice in `names`.
pub open spec fn distinct_names(names: Seq<Seq<char>>) -> bool {
    forall|i: int, j: int|
        0 <= i < names.len() && 0 <= j < names.len() && i != j ==> #[trigger] names[i] != #[trigger] names[j]
}

/// The index at which `name` stands in `names`, if it does.
pub open spec fn index_of(names: Seq<Seq<char>>, name: Seq<char>) -> Option<int> {
    if exists|i: int| 0 <= i < names.len() && names[i] == name {
        Some(choose|i: int| 0 <= i < names.len() && names[i] == name)
    } else {
        None
    }
}

/// The names of a table of named entries.
pub open spec fn names_of<T>(table: Seq<(String, T)>) -> Seq<Seq<char>> {
    table.map_values(|p: (String, T)| p.0@)
}

/// The entries of a table of named entries, without their names.
pub open spec fn values_of<T>(table: Seq<(String, T)>) -> Seq<T> {
    table.map_values(|p: (String, T)| p.1)
}

/// Constant names and function names that can make up an environment: each
/// is a symbol name, and no name occurs twice among them all.
pub open spec fn valid_names(constants: Seq<Seq<char>>, functions: Seq<Seq<char>>) -> bool {
    &&& forall|i: int| 0 <= i < constants.len() ==> is_symbol_name(#[trigger] constants[i])
    &&& forall|i: int| 0 <= i < functions.len() ==> is_symbol_name(#[trigger] functions[i])
    &&& distinct_names(constants + functions)
}

/// The names that an expression may use: constants, each with its value, and
/// unary functions. `N` is the type of a constant's value, `F` that of a function.
/// Names are symbol names, and no name is both a constant and a function.
pub struct Env<N, F> {
    constants: Vec<(String, N)>,
    functions: Vec<(String, F)>,
}

impl<N, F> Env<N, F> {
    pub closed spec fn constant_names(&self) -> Seq<Seq<char>> {
        names_of(self.constants@)
    }

    pub closed spec fn constant_values(&self) -> Seq<N> {
        values_of(self.constants@)
    }

    pub closed spec fn function_names(&self) -> Seq<Seq<char>> {
        names_of(self.functions@)
    }

    pub closed spec fn function_values(&self) -> Seq<F> {
        values_of(self.functions@)
    }

    /// Every name is a symbol name and no name is defined twice.
    pub open spec fn wf(&self) -> bool {
        &&& self.constant_values().len() == self.constant_names().len()
        &&& self.function_values().len() == self.function_names().len()
        &&& valid_names(self.constant_names(), self.function_names())
    }

    /// An environment of the given constants and functions, or `None` where a
    /// name is not a symbol name or is given twice.
    pub fn new(constants: Vec<(String, N)>, functions: Vec<(String, F)>) -> (r: Option<Self>)
        ensures
            r is Some <==> valid_names(names_of(constants@), names_of(functions@)),
            r matches Some(env) ==> {
                &&& env.wf()
                &&& env.constant_names() == names_of(constants@)
                &&& env.constant_values() == values_of(constants@)
                &&& env.function_names() == names_of(functions@)
                &&& env.function_values() == values_of(functions@)
            },
    {
        let ghost cn = names_of(constants@);
        let ghost fnames = names_of(functions@);
        let mut i: usize = 0;
        while i < constants.len()
            invariant
                cn == names_of(constants@),
                fnames == names_of(functions@),
                i <= constants@.len(),
                forall|k: int| 0 <= k < i ==> is_symbol_name(#[trigger] cn[k]),
                distinct_names(cn.take(i as int)),
            decreases constants@.len() - i,
        {
            let name = &constants[i].0;
            assert(name@ == cn[i as int]);
            if !check_symbol_name(name) {
                return None;
            }
            if name_in(&constants, i, name) {
                let ghost k = choose|k: int| 0 <= k < i && cn[k] == name@;
                assert((cn + fnames)[k] == (cn + fnames)[i as int]);
                return None;
            }
            assert(distinct_names(cn.take(i + 1))) by {
                assert forall|a: int, b: int|
                    0 <= a < i + 1 && 0 <= b < i + 1 && a != b implies #[trigger] cn.take(i + 1)[a] != #[trigger] cn.take(i + 1)[b] by {
                    if a < i && b < i {
                        assert(cn.take(i as int)[a] != cn.take(i as int)[b]);
                    }
                }
            }
            i = i + 1;
        }
        assert(cn.take(i as int) =~= cn);
        let mut j: usize = 0;
        while j < functions.len()
            invariant
                cn == names_of(constants@),
                fnames == names_of(functions@),
                j <= functions@.len(),
                forall|k: int| 0 <= k < cn.len() ==> is_symbol_name(#[trigger] cn[k]),
                forall|k: int| 0 <= k < j ==> is_symbol_name(#[trigger] fnames[k]),
                distinct_names(cn + fnames.take(j as int)),
            decreases functions@.len() - j,
        {
            let name = &functions[j].0;
            assert(name@ == fnames[j as int]);
            if !check_symbol_name(name) {
                return None;
            }
            if name_in(&constants, constants.len(), name) {
                let ghost k = choose|k: int| 0 <= k < cn.len() && cn[k] == name@;
                assert((cn + fnames)[k] == (cn + fnames)[cn.len() + j]);
                return None;
            }
            if name_in(&functions, j, name) {
                let ghost k = choose|k: int| 0 <= k < j && fnames[k] == name@;
                assert((cn + fnames)[cn.len() + k] == (cn + fnames)[cn.len() + j]);
                return None;
            }
            let ghost all = cn + fnames.take(j + 1);
            assert(distinct_names(all)) by {
                let ghost prev = cn + fnames.take(j as int);
                assert forall|a: int, b: int|
                    0 <= a < all.len() && 0 <= b < all.len() && a != b implies #[trigger] all[a] != #[trigger] all[b] by {
                    if a < all.len() - 1 && b < all.len() - 1 {
                        assert(all[a] == prev[a] && all[b] == prev[b]);
                    }
                }
            }
            j = j + 1;
        }
        assert(fnames.take(j as int) =~= fnames);
        Some(Env { constants, functions })
    }

    /// The value of the constant `name`, if there is one.
    pub open spec fn constant_of(&self, name: Seq<char>) -> Option<N> {
        match index_of(self.constant_names(), name) {
            Some(i) => Some(self.constant_values()[i]),
            None => None,
        }
    }

    /// The index of the function `name` in the function table, if there is one.
    pub open spec fn function_of(&self, name: Seq<char>) -> Option<int> {
        index_of(self.function_names(), name)
    }
}

impl<N: Copy, F> Env<N, F> {
    /// The value of the constant `name`, if there is one.
    pub fn lookup_constant(&self, name: &String) -> (r: Option<N>)
        requires
            self.wf(),
        ensures
            r == self.constant_of(name@),
    {
        match self.constant_index(name) {
            Some(i) => Some(self.constants[i].1),
            None => None,
        }
    }
}

impl<N, F> Env<N, F> {
    /// Where `name` stands in the table of constants.
    fn constant_index(&self, name: &String) -> (r: Option<usize>)
        requires
            self.wf(),
        ensures
            r matches Some(i) ==> i < self.constants@.len() && index_of(self.constant_names(), name@) == Some(i as int),
            r is None ==> index_of(self.constant_names(), name@) is None,
    {
        let ghost names = self.constant_names();
        let mut i: usize = 0;
        while i < self.constants.len()
            invariant
                self.wf(),
                names == self.constant_names(),
                i <= self.constants@.len(),
                forall|k: int| 0 <= k < i ==> names[k] != name@,
            decreases self.constants@.len() - i,
        {
            if self.constants[i].0 == *name {
                assert(names[i as int] == name@);
                proof {
                    assert(0 <= i < names.len() && names[i as int] == name@);
                    let k = choose|k: int| 0 <= k < names.len() && names[k] == name@;
                    let all = names + self.function_names();
                    assert(all[k] == names[k] && all[i as int] == names[i as int]);
                    if k != i {
                        assert(distinct_names(all));
                        assert(all[k] != all[i as int]);
                    }
                }
                return Some(i);
            }
            i = i + 1;
        }
        None
    }

    /// Where the function `name` stands in the table of functions, if there is one.
    pub fn lookup_function(&self, name: &String) -> (r: Option<usize>)
        requires
            self.wf(),
        ensures
            r matches Some(i) ==> self.function_of(name@) == Some(i as int),
            r is None ==> self.function_of(name@) is None,
    {
        let ghost names = self.function_names();
        let ghost cn = self.constant_names();
        let mut i: usize = 0;
        while i < self.functions.len()
            invariant
                self.wf(),
                names == self.function_names(),
                cn == self.constant_names(),
                i <= self.functions@.len(),
                forall|k: int| 0 <= k < i ==> names[k] != name@,
            decreases self.functions@.len() - i,
        {
            if self.functions[i].0 == *name {
                assert(names[i as int] == name@);
                proof {
                    assert(0 <= i < names.len() && names[i as int] == name@);
                    let k = choose|k: int| 0 <= k < names.len() && names[k] == name@;
                    let all = cn + names;
                    assert(all[cn.len() + k] == names[k] && all[cn.len() + i] == names[i as int]);
                    if k != i {
                        assert(distinct_names(all));
                        assert(all[k] != all[i as int]);
                    }
                }
                return Some(i);
            }
            i = i + 1;
        }
        None
    }

    /// The number of functions in the table.
    pub fn function_count(&self) -> (r: usize)
        ensures
            r == self.function_names().len(),
    {
        self.functions.len()
    }

    /// The function at `index` in the table of functions.
    pub fn function(&self, index: usize) -> (r: &F)
        requires
            self.wf(),
            index < self.function_names().len(),
        ensures
            *r == self.function_values()[index as int],
    {
        &self.functions[index].1
    }
}

/// Whether every character of `s` may appear in a symbol name, and there is one at least.
fn check_symbol_name(s: &String) -> (r: bool)
    ensures
        r == is_symbol_name(s@),
{
    let text = s.as_str();
    let n = text.unicode_len();
    if n == 0 {
        return false;
    }
    let mut i: usize = 0;
    while i < n
        invariant
            n == s@.len(),
            text@ == s@,
            i <= n,
            forall|k: int| 0 <= k < i ==> is_symbol_char(#[trigger] s@[k]),
        decreases n - i,
    {
        let c = text.get_char(i);
        if !(('a' <= c && c <= 'z') || ('A' <= c && c <= 'Z') || c == '_') {
            return false;
        }
        i = i + 1;
    }
    true
}

/// Whether `name` is the name of one of the first `upto` entries of `table`.
fn name_in<T>(table: &Vec<(String, T)>, upto: usize, name: &String) -> (r: bool)
    requires
        upto <= table@.len(),
    ensures
        r == exists|k: int| 0 <= k < upto && names_of(table@)[k] == name@,
{
    let mut i: usize = 0;
    while i < upto
        invariant
            upto <= table@.len(),
            i <= upto,
            forall|k: int| 0 <= k < i ==> names_of(table@)[k] != name@,
        decreases upto - i,
    {
        if table[i].0 == *name {
            assert(names_of(table@)[i as int] == name@);
            return true;
        }
        i = i + 1;
    }
    false
}

} // verus!
