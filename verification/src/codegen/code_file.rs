use vstd::prelude::*;
use vstd::string::*;

use crate::codegen::c_func::CFunction;
use crate::codegen::compile::{debug_str, debug_text};
use crate::codegen::inst_translator::{lines_view, spaces};

verus! {

/// `a` comes before `b` in dictionary order of their characters, a proper
/// prefix first.
pub open spec fn text_lt(a: Seq<char>, b: Seq<char>) -> bool
    decreases a.len(),
{
    if a.len() == 0 {
        b.len() > 0
    } else if b.len() == 0 {
        false
    } else if a[0] == b[0] {
        text_lt(a.drop_first(), b.drop_first())
    } else {
        a[0] < b[0]
    }
}

pub proof fn lemma_text_lt_irreflexive(a: Seq<char>)
    ensures
        !text_lt(a, a),
    decreases a.len(),
{
    if a.len() > 0 {
        lemma_text_lt_irreflexive(a.drop_first());
    }
}

pub proof fn lemma_text_lt_transitive(a: Seq<char>, b: Seq<char>, c: Seq<char>)
    requires
        text_lt(a, b),
        text_lt(b, c),
    ensures
        text_lt(a, c),
    decreases a.len(),
{
    if a.len() > 0 && a[0] == b[0] && b[0] == c[0] {
        lemma_text_lt_transitive(a.drop_first(), b.drop_first(), c.drop_first());
    }
}

pub proof fn lemma_text_lt_total(a: Seq<char>, b: Seq<char>)
    requires
        a != b,
    ensures
        text_lt(a, b) || text_lt(b, a),
    decreases a.len(),
{
    if a.len() > 0 && b.len() > 0 && a[0] == b[0] {
        if a.drop_first() == b.drop_first() {
            assert(a =~= seq![a[0]] + a.drop_first());
            assert(b =~= seq![b[0]] + b.drop_first());
        }
        lemma_text_lt_total(a.drop_first(), b.drop_first());
    } else if a.len() == 0 && b.len() == 0 {
        assert(a =~= b);
    }
}

/// Whether `a` comes before `b` in dictionary order of their characters.
pub fn text_less(a: &str, b: &str) -> (r: bool)
    ensures
        r == text_lt(a@, b@),
{
    let na = a.unicode_len();
    let nb = b.unicode_len();
    let mut i: usize = 0;
    assert(a@.skip(0) =~= a@);
    assert(b@.skip(0) =~= b@);
    while i < na && i < nb
        invariant
            na == a@.len(),
            nb == b@.len(),
            i <= na,
            i <= nb,
            text_lt(a@, b@) == text_lt(a@.skip(i as int), b@.skip(i as int)),
        decreases na - i,
    {
        let ca = a.get_char(i);
        let cb = b.get_char(i);
        assert(a@.skip(i as int)[0] == ca);
        assert(b@.skip(i as int)[0] == cb);
        if ca != cb {
            return ca < cb;
        }
        assert(a@.skip(i as int).drop_first() =~= a@.skip(i + 1));
        assert(b@.skip(i as int).drop_first() =~= b@.skip(i + 1));
        i += 1;
    }
    i == na && i < nb
}

/// The names of the functions come in strictly increasing order, so no
/// name comes twice.
pub open spec fn names_in_order(v: Seq<(Seq<char>, Seq<(usize, Seq<char>)>)>) -> bool {
    forall|i: int, j: int| 0 <= i < j < v.len() ==> text_lt(#[trigger] v[i].0, #[trigger] v[j].0)
}

/// Some function of the unit has the name.
pub open spec fn has_name(v: Seq<(Seq<char>, Seq<(usize, Seq<char>)>)>, name: Seq<char>) -> bool {
    exists|i: int| 0 <= i < v.len() && #[trigger] v[i].0 == name
}

/// The name of a function and the views of its lines.
pub open spec fn function_view(f: CFunction) -> (Seq<char>, Seq<(usize, Seq<char>)>) {
    (f.name@, lines_view(f.lines@))
}

/// The text of one line.
pub open spec fn line_text(l: (usize, Seq<char>)) -> Seq<char> {
    spaces(l.0 as nat) + l.1
}

/// The text of the functions, in order, each after an empty line.
pub open spec fn functions_text(v: Seq<(Seq<char>, Seq<(usize, Seq<char>)>)>) -> Seq<Seq<char>>
    decreases v.len(),
{
    if v.len() == 0 {
        Seq::empty()
    } else {
        functions_text(v.drop_last()) + seq![Seq::<char>::empty()] + v.last().1.map_values(
            |l: (usize, Seq<char>)| line_text(l),
        )
    }
}

/// The lines of a translation unit: the BFNI header, then the functions.
pub open spec fn unit_text(v: Seq<(Seq<char>, Seq<(usize, Seq<char>)>)>) -> Seq<Seq<char>> {
    seq!["#include <bfni.h>"@] + functions_text(v)
}

/// The text of a unit depends only on which functions it holds, not on
/// the order in which they were added: two units in name order that hold
/// the same functions are equal, and so are their texts.
pub proof fn law_unit_text_ignores_insertion_order(
    v: Seq<(Seq<char>, Seq<(usize, Seq<char>)>)>,
    w: Seq<(Seq<char>, Seq<(usize, Seq<char>)>)>,
)
    requires
        names_in_order(v),
        names_in_order(w),
        forall|x: (Seq<char>, Seq<(usize, Seq<char>)>)| v.contains(x) <==> w.contains(x),
    ensures
        v == w,
        unit_text(v) == unit_text(w),
    decreases v.len(),
{
    if v.len() == 0 {
        if w.len() > 0 {
            assert(w.contains(w[0]));
        }
        assert(v =~= w);
    } else {
        assert(v.contains(v[0]));
        let k = choose|k: int| 0 <= k < w.len() && w[k] == v[0];
        assert(w.contains(w[0]));
        let k2 = choose|k2: int| 0 <= k2 < v.len() && v[k2] == w[0];
        if k != 0 {
            assert(text_lt(w[0].0, w[k].0));
            if k2 != 0 {
                assert(text_lt(v[0].0, v[k2].0));
                lemma_text_lt_transitive(v[0].0, w[0].0, v[0].0);
            }
            lemma_text_lt_irreflexive(v[0].0);
        }
        assert(w[0] == v[0]);
        let vt = v.drop_first();
        let wt = w.drop_first();
        assert forall|x: (Seq<char>, Seq<(usize, Seq<char>)>)| vt.contains(x) <==> wt.contains(x) by {
            if vt.contains(x) {
                let a = choose|a: int| 0 <= a < vt.len() && vt[a] == x;
                assert(v[a + 1] == x);
                assert(text_lt(v[0].0, v[a + 1].0));
                lemma_text_lt_irreflexive(v[0].0);
                assert(x != v[0]);
                assert(v.contains(x));
                assert(w.contains(x));
                let b = choose|b: int| 0 <= b < w.len() && w[b] == x;
                assert(b != 0);
                assert(wt[b - 1] == x);
            }
            if wt.contains(x) {
                let a = choose|a: int| 0 <= a < wt.len() && wt[a] == x;
                assert(w[a + 1] == x);
                assert(text_lt(w[0].0, w[a + 1].0));
                lemma_text_lt_irreflexive(w[0].0);
                assert(x != w[0]);
                assert(w.contains(x));
                assert(v.contains(x));
                let b = choose|b: int| 0 <= b < v.len() && v[b] == x;
                assert(b != 0);
                assert(vt[b - 1] == x);
            }
        }
        assert(names_in_order(vt)) by {
            assert forall|a: int, b: int| 0 <= a < b < vt.len() implies text_lt(
                #[trigger] vt[a].0,
                #[trigger] vt[b].0,
            ) by {
                assert(vt[a] == v[a + 1]);
                assert(vt[b] == v[b + 1]);
            }
        }
        assert(names_in_order(wt)) by {
            assert forall|a: int, b: int| 0 <= a < b < wt.len() implies text_lt(
                #[trigger] wt[a].0,
                #[trigger] wt[b].0,
            ) by {
                assert(wt[a] == w[a + 1]);
                assert(wt[b] == w[b + 1]);
            }
        }
        law_unit_text_ignores_insertion_order(vt, wt);
        assert(v =~= seq![v[0]] + vt);
        assert(w =~= seq![w[0]] + wt);
    }
}

/// Why a function was not added to a translation unit.
#[derive(Debug)]
pub enum AddFuncError {
    /// The unit already holds a function of that name.
    DuplicateName(String),
}

impl AddFuncError {
    /// The message that describes the error.
    pub fn message(&self) -> (r: String)
        ensures
            match self {
                AddFuncError::DuplicateName(name) => r@ == "duplicate C function name: "@
                    + debug_text(name@),
            },
    {
        match self {
            AddFuncError::DuplicateName(name) => {
                let mut s = String::from_str("duplicate C function name: ");
                s.append(debug_str(name.as_str()).as_str());
                s
            },
        }
    }
}

/// A C translation unit of Brainfuck functions, kept in order of their
/// names, so that the text does not depend on the order they were added in.
pub struct CodeFile {
    functions: Vec<CFunction>,
}

impl View for CodeFile {
    /// The functions, by name and lines, in order of their names.
    type V = Seq<(Seq<char>, Seq<(usize, Seq<char>)>)>;

    closed spec fn view(&self) -> Seq<(Seq<char>, Seq<(usize, Seq<char>)>)> {
        self.functions@.map_values(|f: CFunction| function_view(f))
    }
}

impl CodeFile {
    #[verifier::type_invariant]
    spec fn in_order(self) -> bool {
        names_in_order(self.functions@.map_values(|f: CFunction| function_view(f)))
    }

    pub fn new() -> (r: Self)
        ensures
            r@ == Seq::<(Seq<char>, Seq<(usize, Seq<char>)>)>::empty(),
    {
        let r = Self { functions: Vec::new() };
        assert(r@ =~= Seq::<(Seq<char>, Seq<(usize, Seq<char>)>)>::empty());
        r
    }

    /// The functions stand in strictly increasing order of their names.
    pub fn names_are_in_order(&self)
        ensures
            names_in_order(self@),
    {
        proof {
            use_type_invariant(self);
        }
    }

    /// Adds a function at its place in name order; a unit holds one
    /// function of each name.
    pub fn add_bf_func(&mut self, function: CFunction) -> (r: Result<(), AddFuncError>)
        ensures
            has_name(old(self)@, function.name@) ==> (r matches Err(AddFuncError::DuplicateName(n))
                && n@ == function.name@ && final(self)@ == old(self)@),
            !has_name(old(self)@, function.name@) ==> (r is Ok && exists|i: int|
                0 <= i <= old(self)@.len() && final(self)@ == old(self)@.insert(
                    i,
                    function_view(function),
                )),
            names_in_order(final(self)@),
    {
        proof {
            use_type_invariant(&*self);
        }
        let ghost v = self@;
        let ghost name = function.name@;
        let n = self.functions.len();
        let mut i: usize = 0;
        while i < n && text_less(self.functions[i].name.as_str(), function.name.as_str())
            invariant
                n == self.functions.len(),
                v == self@,
                name == function.name@,
                names_in_order(v),
                i <= n,
                forall|j: int| 0 <= j < i ==> text_lt(#[trigger] v[j].0, name),
            decreases n - i,
        {
            assert(v[i as int].0 == self.functions[i as int].name@);
            i += 1;
        }
        if i < n && !text_less(function.name.as_str(), self.functions[i].name.as_str()) {
            proof {
                assert(v[i as int].0 == self.functions[i as int].name@);
                if v[i as int].0 != name {
                    lemma_text_lt_total(v[i as int].0, name);
                }
                assert(has_name(v, name));
            }
            return Err(AddFuncError::DuplicateName(function.name));
        }
        proof {
            if i < n {
                assert(v[i as int].0 == self.functions[i as int].name@);
                if v[i as int].0 != name {
                    lemma_text_lt_total(v[i as int].0, name);
                }
                lemma_text_lt_irreflexive(name);
            }
            assert forall|j: int| 0 <= j < v.len() implies #[trigger] v[j].0 != name by {
                lemma_text_lt_irreflexive(name);
                if j > i {
                    lemma_text_lt_transitive(name, v[i as int].0, v[j].0);
                }
            }
        }
        let ghost fv = function_view(function);
        let mut fs: Vec<CFunction> = Vec::new();
        std::mem::swap(&mut fs, &mut self.functions);
        assert(fs@.map_values(|f: CFunction| function_view(f)) == v);
        fs.insert(i, function);
        proof {
            let w = fs@.map_values(|f: CFunction| function_view(f));
            assert(w =~= v.insert(i as int, fv));
            assert forall|a: int, b: int| 0 <= a < b < w.len() implies text_lt(
                #[trigger] w[a].0,
                #[trigger] w[b].0,
            ) by {
                if b < i {
                } else if b == i {
                } else if a < i {
                    assert(text_lt(v[a].0, name));
                    assert(text_lt(name, v[b - 1].0)) by {
                        if b - 1 > i {
                            lemma_text_lt_transitive(name, v[i as int].0, v[b - 1].0);
                        }
                    }
                    lemma_text_lt_transitive(v[a].0, name, v[b - 1].0);
                } else if a == i {
                    if b - 1 > i {
                        lemma_text_lt_transitive(name, v[i as int].0, v[b - 1].0);
                    }
                } else {
                    assert(text_lt(v[a - 1].0, v[b - 1].0));
                }
            }
            assert(!has_name(v, name));
        }
        self.functions = fs;
        Ok(())
    }

    /// The lines of the unit's text: the BFNI header, then each function
    /// after an empty line.
    pub fn text_lines(&self) -> (r: Vec<String>)
        ensures
            r@.map_values(|s: String| s@) == unit_text(self@),
    {
        let ghost v = self@;
        let mut out: Vec<String> = Vec::new();
        out.push(String::from_str("#include <bfni.h>"));
        let n = self.functions.len();
        let mut i: usize = 0;
        while i < n
            invariant
                n == self.functions.len(),
                v == self@,
                i <= n,
                out@.map_values(|s: String| s@) == seq!["#include <bfni.h>"@] + functions_text(
                    v.take(i as int),
                ),
            decreases n - i,
        {
            let f = &self.functions[i];
            let ghost before = out@.map_values(|s: String| s@);
            out.push(String::new());
            let m = f.lines.len();
            let mut j: usize = 0;
            while j < m
                invariant
                    m == f.lines.len(),
                    j <= m,
                    out@.map_values(|s: String| s@) == before + seq![Seq::<char>::empty()]
                        + lines_view(f.lines@).take(j as int).map_values(
                        |l: (usize, Seq<char>)| line_text(l),
                    ),
                decreases m - j,
            {
                let line = f.lines[j].as_string();
                let ghost prev = out@;
                out.push(line);
                assert(out@.map_values(|s: String| s@) =~= prev.map_values(|s: String| s@).push(
                    line@,
                ));
                assert(lines_view(f.lines@).take(j + 1).map_values(
                    |l: (usize, Seq<char>)| line_text(l),
                ) =~= lines_view(f.lines@).take(j as int).map_values(
                    |l: (usize, Seq<char>)| line_text(l),
                ).push(line_text(f.lines@[j as int]@)));
                j += 1;
            }
            proof {
                assert(lines_view(f.lines@).take(m as int) =~= lines_view(f.lines@));
                assert(v.take(i + 1).drop_last() =~= v.take(i as int));
                assert(v.take(i + 1).last() == v[i as int]);
                assert(v[i as int].1 == lines_view(f.lines@));
            }
            i += 1;
        }
        assert(v.take(n as int) =~= v);
        out
    }
}

} // verus!
