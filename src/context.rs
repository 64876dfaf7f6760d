//! The session: named sequences behind stable handles.
//!
//! Handle `h` names the sequence in slot `h - 1`; handle 0 is never valid. A
//! name keeps its handle when it is defined again.

use crate::bind::BindError;
use crate::eval::eval_var;
use crate::eval::root_kind;
use crate::eval::within_range;
use crate::eval::step_var;
use crate::eval::table_ok;
use crate::expr::well_formed;
use crate::expr::Expr;
use crate::expr::NodeView;
use crate::random::fork;
use crate::random::fork_state;
use crate::random::fork_value;
use crate::reach::closes_cycle;
use crate::reach::closes_cycle_exec;
use crate::reach::defined;
use crate::reach::lemma_defined_ok;
use crate::reach::new_depth;
use crate::reach::reads_within;
use crate::variable::var_done;
use crate::variable::var_prev;
use crate::variable::var_views;
use crate::variable::VarView;
use crate::variable::Variable;
use vstd::prelude::*;

verus! {

/// A handle that names no sequence of the session.
#[derive(Debug, Clone, Copy, PartialEq, Eq, Structural)]
pub struct NotFound {
    pub handle: usize,
}

/// An enumeration item: its name and value.
pub struct EnumItem {
    pub name: String,
    pub value: u32,
}

/// A declared enumeration.
pub struct EnumDef {
    pub name: String,
    pub items: Vec<EnumItem>,
}

/// An enumeration as a mathematical value: its name and its items in order.
pub struct EnumView {
    pub name: Seq<char>,
    pub items: Seq<(Seq<char>, u32)>,
}

impl View for EnumDef {
    type V = EnumView;

    open spec fn view(&self) -> EnumView {
        EnumView { name: self.name@, items: self.items@.map_values(|i: EnumItem| (i.name@, i.value)) }
    }
}

/// The views of a list of enumerations.
pub open spec fn enum_views(s: Seq<EnumDef>) -> Seq<EnumView> {
    s.map_values(|e: EnumDef| e@)
}

/// A session as a mathematical value: the name of each slot, the sequences,
/// the declared enumerations and the state that seeds new sequences.
pub struct ContextView {
    pub names: Seq<Seq<char>>,
    pub vars: Seq<VarView>,
    pub enums: Seq<EnumView>,
    pub seeder: u64,
}

/// A session: it owns every sequence and hands out handles to them.
pub struct Context {
    names: Vec<String>,
    variables: Vec<Variable>,
    enums: Vec<EnumDef>,
    seeder: u64,
}

/// No two entries of `s` are equal.
pub open spec fn distinct<T>(s: Seq<T>) -> bool {
    forall|i: int, j: int| 0 <= i < s.len() && 0 <= j < s.len() && i != j ==> s[i] != s[j]
}

/// The handle of `name`, if a sequence has that name.
pub open spec fn handle_of(names: Seq<Seq<char>>, name: Seq<char>) -> Option<usize> {
    if exists|i: int| 0 <= i < names.len() && names[i] == name {
        Some(((choose|i: int| 0 <= i < names.len() && names[i] == name) + 1) as usize)
    } else {
        None
    }
}

/// The names of a list of enumerations.
pub open spec fn enum_names(enums: Seq<EnumView>) -> Seq<Seq<char>> {
    enums.map_values(|e: EnumView| e.name)
}

/// The names of a list of enumeration items.
pub open spec fn item_names(items: Seq<(Seq<char>, u32)>) -> Seq<Seq<char>> {
    items.map_values(|i: (Seq<char>, u32)| i.0)
}

/// The position of the enumeration called `name`, if one is declared.
pub open spec fn enum_index(enums: Seq<EnumView>, name: Seq<char>) -> Option<int> {
    if exists|i: int| 0 <= i < enums.len() && enums[i].name == name {
        Some(choose|i: int| 0 <= i < enums.len() && enums[i].name == name)
    } else {
        None
    }
}

/// The value of the item called `name`, if the list has one.
pub open spec fn item_value(items: Seq<(Seq<char>, u32)>, name: Seq<char>) -> Option<u32> {
    if exists|i: int| 0 <= i < items.len() && items[i].0 == name {
        Some(items[choose|i: int| 0 <= i < items.len() && items[i].0 == name].1)
    } else {
        None
    }
}

/// The value of `item` of enumeration `en`, or the name that is missing.
pub open spec fn enum_item_result(enums: Seq<EnumView>, en: String, item: String) -> Result<
    u32,
    BindError,
> {
    match enum_index(enums, en@) {
        None => Err(BindError::UnresolvedIdentifier(en)),
        Some(k) => match item_value(enums[k].items, item@) {
            None => Err(BindError::UnresolvedIdentifier(item)),
            Some(v) => Ok(v),
        },
    }
}

/// The value of the first item of enumeration `en`, or the name that is
/// missing.
pub open spec fn enum_first_result(enums: Seq<EnumView>, en: String) -> Result<u32, BindError> {
    match enum_index(enums, en@) {
        None => Err(BindError::UnresolvedIdentifier(en)),
        Some(k) => if enums[k].items.len() > 0 {
            Ok(enums[k].items[0].1)
        } else {
            Err(BindError::UnresolvedIdentifier(en))
        },
    }
}

/// The enumerations after `e` is declared: it replaces one of the same name,
/// or comes last.
pub open spec fn with_enum(enums: Seq<EnumView>, e: EnumView) -> Seq<EnumView> {
    match enum_index(enums, e.name) {
        Some(k) => enums.update(k, e),
        None => enums.push(e),
    }
}

/// Whether `handle` names a sequence of a table of `n`.
pub open spec fn valid_handle(n: nat, handle: usize) -> bool {
    1 <= handle <= n
}

impl ContextView {
    /// The session's invariant.
    pub open spec fn wf(self) -> bool {
        &&& self.names.len() == self.vars.len()
        &&& distinct(self.names)
        &&& table_ok(self.vars)
        &&& forall|u: int|
            0 <= u < self.vars.len() ==> well_formed(#[trigger] self.vars[u].definition)
                && reads_within(self.vars, self.vars[u].definition)
        &&& distinct(enum_names(self.enums))
        &&& forall|k: int| 0 <= k < self.enums.len() ==> distinct(item_names(#[trigger] self.enums[k].items))
    }

    /// The slot that `name` is defined in: its own, or a new one.
    pub open spec fn slot_for(self, name: Seq<char>) -> int {
        match handle_of(self.names, name) {
            Some(h) => h - 1,
            None => self.names.len() as int,
        }
    }

    /// Whether defining `name` as `e` would make it read itself.
    pub open spec fn refuses(self, name: Seq<char>, e: Seq<NodeView>) -> bool {
        closes_cycle(self.vars, e, self.slot_for(name))
    }

    /// The session after `name` is defined as `e`, drawing from `rng`, and the
    /// seeding state has moved on to `seeder`.
    pub open spec fn with_definition(
        self,
        name: Seq<char>,
        e: Seq<NodeView>,
        rng: u64,
        seeder: u64,
    ) -> ContextView {
        ContextView {
            names: if handle_of(self.names, name) is Some {
                self.names
            } else {
                self.names.push(name)
            },
            vars: defined(self.vars, self.slot_for(name), e, rng),
            enums: self.enums,
            seeder,
        }
    }

    /// The session after one step of the sequence behind `handle`.
    pub open spec fn stepped(self, handle: usize) -> ContextView {
        ContextView { vars: eval_var(self.vars, handle - 1).vars, ..self }
    }
}

impl View for Context {
    type V = ContextView;

    closed spec fn view(&self) -> ContextView {
        ContextView {
            names: self.names@.map_values(|n: String| n@),
            vars: var_views(self.variables@),
            enums: enum_views(self.enums@),
            seeder: self.seeder,
        }
    }
}

impl Context {
    /// An empty session whose master seed is 0.
    pub fn new() -> (c: Context)
        ensures
            c@.wf(),
            c@.names.len() == 0,
            c@.vars.len() == 0,
            c@.enums.len() == 0,
            c@.seeder == 0,
    {
        let c = Context { names: Vec::new(), variables: Vec::new(), enums: Vec::new(), seeder: 0 };
        assert(c@.names =~= Seq::empty());
        assert(c@.vars =~= Seq::empty());
        assert(c@.enums =~= Seq::empty());
        c
    }

    /// Sets the master seed from which the sequences defined from now on
    /// draw their random sources.
    pub fn seed(&mut self, seed: u32)
        requires
            old(self)@.wf(),
        ensures
            final(self)@ == (ContextView { seeder: seed as u64, ..old(self)@ }),
            final(self)@.wf(),
    {
        self.seeder = seed as u64;
    }

    /// The number of sequences.
    pub fn len(&self) -> (n: usize)
        ensures
            n == self@.vars.len(),
    {
        self.variables.len()
    }

    /// The handle of the sequence called `name`, if there is one.
    pub fn lookup(&self, name: &str) -> (r: Option<usize>)
        requires
            self@.wf(),
        ensures
            r == handle_of(self@.names, name@),
            r matches Some(h) ==> valid_handle(self@.vars.len(), h),
    {
        let ghost names = self@.names;
        let wanted = name.to_owned();
        let mut k: usize = 0;
        while k < self.names.len()
            invariant
                k <= names.len(),
                names == self@.names,
                names.len() == self.names@.len(),
                self@.wf(),
                wanted@ == name@,
                forall|i: int| 0 <= i < k ==> names[i] != name@,
            decreases names.len() - k,
        {
            assert(names[k as int] == self.names@[k as int]@);
            if self.names[k].eq(&wanted) {
                assert(names[k as int] == name@);
                let ghost c = choose|i: int| 0 <= i < names.len() && names[i] == name@;
                assert(c == k);
                return Some(k + 1);
            }
            k = k + 1;
        }
        None
    }

    /// Steps the sequence behind `handle` and returns its value.
    pub fn next(&mut self, handle: usize) -> (r: Result<u32, NotFound>)
        requires
            old(self)@.wf(),
        ensures
            final(self)@.wf(),
            valid_handle(old(self)@.vars.len(), handle) ==> {
                &&& r == Ok::<u32, NotFound>(eval_var(old(self)@.vars, handle - 1).value)
                &&& final(self)@ == old(self)@.stepped(handle)
                &&& within_range(root_kind(old(self)@.vars[handle - 1]), r->Ok_0)
            },
            !valid_handle(old(self)@.vars.len(), handle) ==> {
                &&& r == Err::<u32, NotFound>(NotFound { handle })
                &&& final(self)@ == old(self)@
            },
    {
        if handle == 0 || handle > self.variables.len() {
            return Err(NotFound { handle });
        }
        let v = step_var(&mut self.variables, handle - 1);
        proof {
            crate::eval::lemma_same_shape_ok(old(self)@.vars, self@.vars);
        }
        Ok(v)
    }

    /// The value that the sequence behind `handle` produced last.
    pub fn prev(&self, handle: usize) -> (r: Result<u32, NotFound>)
        requires
            self@.wf(),
        ensures
            valid_handle(self@.vars.len(), handle) ==> r == Ok::<u32, NotFound>(
                var_prev(self@.vars[handle - 1]),
            ),
            !valid_handle(self@.vars.len(), handle) ==> r == Err::<u32, NotFound>(
                NotFound { handle },
            ),
    {
        if handle == 0 || handle > self.variables.len() {
            return Err(NotFound { handle });
        }
        assert(self@.vars[handle - 1] == self.variables@[handle - 1]@);
        Ok(self.variables[handle - 1].prev())
    }

    /// Whether the last step of the sequence behind `handle` completed a cycle.
    pub fn done(&self, handle: usize) -> (r: Result<bool, NotFound>)
        requires
            self@.wf(),
        ensures
            valid_handle(self@.vars.len(), handle) ==> r == Ok::<bool, NotFound>(
                var_done(self@.vars[handle - 1]),
            ),
            !valid_handle(self@.vars.len(), handle) ==> r == Err::<bool, NotFound>(
                NotFound { handle },
            ),
    {
        if handle == 0 || handle > self.variables.len() {
            return Err(NotFound { handle });
        }
        assert(self@.vars[handle - 1] == self.variables@[handle - 1]@);
        Ok(self.variables[handle - 1].done())
    }

    /// Drops every sequence and enumeration; no handle is valid afterwards.
    /// The master seed stays.
    pub fn clear(&mut self)
        requires
            old(self)@.wf(),
        ensures
            final(self)@.wf(),
            final(self)@.names.len() == 0,
            final(self)@.vars.len() == 0,
            final(self)@.enums.len() == 0,
            final(self)@.seeder == old(self)@.seeder,
    {
        self.names = Vec::new();
        self.variables = Vec::new();
        self.enums = Vec::new();
        assert(self@.names =~= Seq::empty());
        assert(self@.vars =~= Seq::empty());
        assert(self@.enums =~= Seq::empty());
    }

    /// The definition of the sequence behind `handle`, without its state.
    pub fn definition_of(&self, handle: usize) -> (e: Expr)
        requires
            self@.wf(),
            valid_handle(self@.vars.len(), handle),
        ensures
            e@ == self@.vars[handle - 1].definition,
            well_formed(e@),
            reads_within(self@.vars, e@),
    {
        assert(self@.vars[handle - 1] == self.variables@[handle - 1]@);
        self.variables[handle - 1].clone_expr()
    }

    /// The seed of the next sequence to be defined, and the seeding state
    /// after it.
    pub fn next_seed(&self) -> (r: (u64, u64))
        ensures
            r.0 == fork_value(self@.seeder),
            r.1 == fork_state(self@.seeder),
    {
        fork(self.seeder)
    }

    /// Defines `name` as `expr`, drawing from `rng`: a name keeps its handle,
    /// a new name takes the next one. Refused if the definition would read
    /// the sequence it defines.
    pub fn define(&mut self, name: String, expr: Expr, rng: u64, seeder: u64) -> (r: Result<
        usize,
        BindError,
    >)
        requires
            old(self)@.wf(),
            well_formed(expr@),
            reads_within(old(self)@.vars, expr@),
        ensures
            final(self)@.wf(),
            old(self)@.refuses(name@, expr@) ==> {
                &&& r == Err::<usize, BindError>(BindError::CyclicReference(name))
                &&& final(self)@ == old(self)@
            },
            !old(self)@.refuses(name@, expr@) ==> {
                &&& r == Ok::<usize, BindError>((old(self)@.slot_for(name@) + 1) as usize)
                &&& final(self)@ == old(self)@.with_definition(name@, expr@, rng, seeder)
            },
    {
        let ghost old_view = self@;
        let ghost vars = self@.vars;
        let found = self.lookup(name.as_str());
        let slot = match found {
            Some(h) => h - 1,
            None => self.variables.len(),
        };
        assert(slot == old_view.slot_for(name@));
        if closes_cycle_exec(&self.variables, &expr, slot) {
            return Err(BindError::CyclicReference(name));
        }
        let ghost ev = expr@;
        let ghost nv = defined(vars, slot as int, ev, rng);
        proof {
            lemma_defined_ok(vars, slot as int, expr@, rng);
        }
        let definition = expr.duplicate();
        let var = Variable {
            expr,
            definition,
            rng,
            depth: Ghost(new_depth(vars, expr@, slot as int)),
        };
        let ghost var_view = var@;
        assert(var_view == nv[slot as int]);
        let handle;
        if slot == self.variables.len() {
            self.variables.push(var);
            self.names.push(name);
            handle = self.variables.len();
            assert(var_views(self.variables@) =~= nv);
        } else {
            let mut u: usize = 0;
            while u < self.variables.len()
                invariant
                    u <= self.variables@.len(),
                    self.variables@.len() == vars.len(),
                    slot < vars.len(),
                    nv == defined(vars, slot as int, ev, rng),
                    nv.len() == vars.len(),
                    vars == old_view.vars,
                    self.names == old(self).names,
                    self.enums == old(self).enums,
                    self.seeder == old(self).seeder,
                    var_view == nv[slot as int],
                    forall|w: int|
                        0 <= w < vars.len() ==> #[trigger] var_views(self.variables@)[w] == if w < u
                            && w != slot {
                            nv[w]
                        } else {
                            vars[w]
                        },
                decreases vars.len() - u,
            {
                if u != slot {
                    let ghost before = self.variables@;
                    assert(var_views(before)[u as int] == before[u as int]@);
                    assert(nv[u as int].expr == vars[u as int].expr);
                    assert(nv[u as int].definition == vars[u as int].definition);
                    assert(nv[u as int].rng == vars[u as int].rng);
                    let v = &mut self.variables[u];
                    v.depth = Ghost(nv[u as int].depth);
                    proof {
                        assert(var_views(self.variables@) =~= var_views(before).update(u as int, nv[u as int]));
                    }
                }
                u = u + 1;
            }
            let ghost before = self.variables@;
            self.variables.set(slot, var);
            handle = slot + 1;
            assert forall|w: int| 0 <= w < nv.len() implies #[trigger] var_views(self.variables@)[w]
                == nv[w] by {
                if w != slot {
                    assert(var_views(before)[w] == nv[w]);
                    assert(self.variables@[w] == before[w]);
                }
            }
            assert(var_views(self.variables@) =~= nv);
        }
        self.seeder = seeder;
        proof {
            let now = self@;
            assert(now.names =~= old_view.with_definition(name@, expr@, rng, seeder).names);
            assert(now.vars == nv);
            assert forall|u: int| 0 <= u < now.vars.len() implies well_formed(
                #[trigger] now.vars[u].definition,
            ) && reads_within(now.vars, now.vars[u].definition) by {
                if u != slot {
                    assert(now.vars[u].definition == vars[u].definition);
                    assert(well_formed(vars[u].definition));
                }
            }
        }
        Ok(handle)
    }

    fn find_enum(&self, name: &String) -> (r: Option<usize>)
        requires
            self@.wf(),
        ensures
            r matches Some(k) ==> enum_index(self@.enums, name@) == Some(k as int) && k
                < self@.enums.len(),
            r is None ==> enum_index(self@.enums, name@) is None,
    {
        let ghost enums = self@.enums;
        let mut k: usize = 0;
        while k < self.enums.len()
            invariant
                k <= enums.len(),
                enums == self@.enums,
                enums.len() == self.enums@.len(),
                self@.wf(),
                forall|i: int| 0 <= i < k ==> enums[i].name != name@,
            decreases enums.len() - k,
        {
            assert(enums[k as int] == self.enums@[k as int]@);
            if self.enums[k].name.eq(name) {
                let ghost c = choose|i: int| 0 <= i < enums.len() && enums[i].name == name@;
                assert(enum_names(enums)[c] == enums[c].name);
                assert(enum_names(enums)[k as int] == enums[k as int].name);
                assert(c == k);
                return Some(k);
            }
            k = k + 1;
        }
        None
    }

    /// The value of `item` of the enumeration `en`.
    pub fn enum_item_value(&self, en: &String, item: &String) -> (r: Result<u32, BindError>)
        requires
            self@.wf(),
        ensures
            r == enum_item_result(self@.enums, *en, *item),
    {
        match self.find_enum(en) {
            None => Err(BindError::UnresolvedIdentifier(en.clone())),
            Some(k) => {
                let ghost items = self@.enums[k as int].items;
                let list = &self.enums[k].items;
                assert(items =~= list@.map_values(|i: EnumItem| (i.name@, i.value)));
                let mut j: usize = 0;
                while j < list.len()
                    invariant
                        j <= items.len(),
                        k < self@.enums.len(),
                        items == self@.enums[k as int].items,
                        enum_index(self@.enums, en@) == Some(k as int),
                        items.len() == list@.len(),
                        items =~= list@.map_values(|i: EnumItem| (i.name@, i.value)),
                        distinct(item_names(items)),
                        forall|i: int| 0 <= i < j ==> items[i].0 != item@,
                    decreases items.len() - j,
                {
                    assert(items[j as int] == (list@[j as int].name@, list@[j as int].value));
                    if list[j].name.eq(item) {
                        assert(items[j as int].0 == item@);
                        let ghost c = choose|i: int| 0 <= i < items.len() && items[i].0 == item@;
                        assert(item_names(items)[c] == items[c].0);
                        assert(item_names(items)[j as int] == items[j as int].0);
                        assert(c == j);
                        return Ok(list[j].value);
                    }
                    j = j + 1;
                }
                Err(BindError::UnresolvedIdentifier(item.clone()))
            },
        }
    }

    /// The value of the first item of the enumeration `en`.
    pub fn enum_first_value(&self, en: &String) -> (r: Result<u32, BindError>)
        requires
            self@.wf(),
        ensures
            r == enum_first_result(self@.enums, *en),
    {
        match self.find_enum(en) {
            None => Err(BindError::UnresolvedIdentifier(en.clone())),
            Some(k) => {
                assert(self@.enums[k as int] == self.enums@[k as int]@);
                if self.enums[k].items.len() > 0 {
                    Ok(self.enums[k].items[0].value)
                } else {
                    Err(BindError::UnresolvedIdentifier(en.clone()))
                }
            },
        }
    }

    /// Declares an enumeration; it replaces one of the same name.
    pub fn declare_enum(&mut self, def: EnumDef)
        requires
            old(self)@.wf(),
            distinct(item_names(def@.items)),
        ensures
            final(self)@.wf(),
            final(self)@ == (ContextView { enums: with_enum(old(self)@.enums, def@), ..old(self)@ }),
    {
        let ghost dv = def@;
        let ghost enums = self@.enums;
        match self.find_enum(&def.name) {
            Some(k) => {
                self.enums.set(k, def);
                assert(self@.enums =~= enums.update(k as int, dv));
                assert(enum_names(self@.enums) =~= enum_names(enums));
            },
            None => {
                self.enums.push(def);
                assert(self@.enums =~= enums.push(dv));
                assert(enum_names(self@.enums) =~= enum_names(enums).push(dv.name));
            },
        }
        assert forall|k: int| 0 <= k < self@.enums.len() implies distinct(
            item_names(#[trigger] self@.enums[k].items),
        ) by {
            if self@.enums[k] != dv {
                assert(exists|i: int| 0 <= i < enums.len() && enums[i] == self@.enums[k]);
            }
        }
    }
}

} // verus!
