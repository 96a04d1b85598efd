//! The scoped symbol stack: a flat list of named entries plus a stack of
//! scope frames, giving lexical scoping with shadowing.
use vstd::prelude::*;

verus! {

broadcast use vstd::std_specs::vec::group_vec_axioms;

/// Items stored in a scoped stack expose a name to look them up by.
pub trait Named {
    /// When the name is defined; items that violate this are programmer
    /// errors, kept out of the stack by its contracts.
    spec fn wf_named(&self) -> bool;

    /// The name, at the specification level.
    spec fn name_spec(&self) -> Seq<char>;

    fn get_name(&self) -> (r: String)
        requires
            self.wf_named(),
        ensures
            r@ == self.name_spec(),
    ;
}

// ===== The ghost model of a scoped stack =====

/// Ghost model: the flat symbol list and, per open scope, the names pushed in
/// it, oldest scope first.
#[verifier::ext_equal]
pub struct StackModel<S> {
    pub symbols: Seq<S>,
    pub frames: Seq<Seq<Seq<char>>>,
}

/// The names of a symbol sequence, in order.
pub open spec fn names_of<S: Named>(syms: Seq<S>) -> Seq<Seq<char>> {
    Seq::new(syms.len(), |i: int| syms[i].name_spec())
}

/// All frames, concatenated oldest first.
pub open spec fn frames_concat(frames: Seq<Seq<Seq<char>>>) -> Seq<Seq<char>>
    decreases frames.len(),
{
    if frames.len() == 0 {
        Seq::empty()
    } else {
        frames_concat(frames.drop_last()) + frames.last()
    }
}

/// A stack is well formed when the recorded frame names are, in order,
/// exactly the names of the flat symbol list, and every symbol has a name.
pub open spec fn sm_wf<S: Named>(m: StackModel<S>) -> bool {
    &&& frames_concat(m.frames) == names_of(m.symbols)
    &&& forall|i: int| 0 <= i < m.symbols.len() ==> (#[trigger] m.symbols[i]).wf_named()
}

pub open spec fn sm_empty<S>() -> StackModel<S> {
    StackModel { symbols: Seq::empty(), frames: Seq::empty() }
}

pub open spec fn sm_new_scope<S>(m: StackModel<S>) -> StackModel<S> {
    StackModel { symbols: m.symbols, frames: m.frames.push(Seq::empty()) }
}

pub open spec fn sm_push<S: Named>(m: StackModel<S>, s: S) -> StackModel<S>
    recommends
        m.frames.len() > 0,
{
    StackModel {
        symbols: m.symbols.push(s),
        frames: m.frames.update(
            m.frames.len() - 1,
            m.frames.last().push(s.name_spec()),
        ),
    }
}

/// Ending a scope drops the top frame and the symbols it accounts for.
pub open spec fn sm_end_scope<S>(m: StackModel<S>) -> StackModel<S>
    recommends
        m.frames.len() > 0,
        m.frames.last().len() <= m.symbols.len(),
{
    StackModel {
        symbols: m.symbols.take(m.symbols.len() - m.frames.last().len()),
        frames: m.frames.drop_last(),
    }
}

/// The index of the rightmost symbol with the given name, if any.
pub open spec fn last_index_of<S: Named>(syms: Seq<S>, name: Seq<char>) -> Option<int>
    decreases syms.len(),
{
    if syms.len() == 0 {
        None
    } else if syms.last().name_spec() == name {
        Some(syms.len() - 1)
    } else {
        last_index_of(syms.drop_last(), name)
    }
}

/// What the rightmost-index function returns: a rightmost match, or a
/// guarantee that no entry matches.
pub proof fn lemma_last_index_of<S: Named>(syms: Seq<S>, name: Seq<char>)
    ensures
        match last_index_of(syms, name) {
            Some(i) => {
                &&& 0 <= i < syms.len()
                &&& syms[i].name_spec() == name
                &&& forall|j: int|
                    i < j < syms.len() ==> (#[trigger] syms[j]).name_spec() != name
            },
            None => forall|j: int|
                0 <= j < syms.len() ==> (#[trigger] syms[j]).name_spec() != name,
        },
    decreases syms.len(),
{
    if syms.len() > 0 && syms.last().name_spec() != name {
        lemma_last_index_of(syms.drop_last(), name);
        assert(forall|j: int|
            0 <= j < syms.len() - 1 ==> #[trigger] syms[j] == syms.drop_last()[j]);
    }
}

/// If nothing at or after position `i` matches, the search may stop at `i`.
proof fn lemma_last_index_of_take<S: Named>(syms: Seq<S>, name: Seq<char>, i: int)
    requires
        0 <= i <= syms.len(),
        forall|j: int| i <= j < syms.len() ==> (#[trigger] syms[j]).name_spec() != name,
    ensures
        last_index_of(syms, name) == last_index_of(syms.take(i), name),
    decreases syms.len() - i,
{
    if i == syms.len() {
        assert(syms.take(i) =~= syms);
    } else {
        lemma_last_index_of_take(syms, name, i + 1);
        let t = syms.take(i + 1);
        assert(t.last() == syms[i]);
        assert(t.drop_last() =~= syms.take(i));
    }
}

// ===== Supporting lemmas on well-formedness =====

pub proof fn lemma_wf_new_scope<S: Named>(m: StackModel<S>)
    requires
        sm_wf(m),
    ensures
        sm_wf(sm_new_scope(m)),
{
    let m2 = sm_new_scope(m);
    assert(m2.frames.drop_last() =~= m.frames);
    assert(frames_concat(m2.frames) =~= names_of(m.symbols));
}

pub proof fn lemma_wf_push<S: Named>(m: StackModel<S>, s: S)
    requires
        sm_wf(m),
        m.frames.len() > 0,
        s.wf_named(),
    ensures
        sm_wf(sm_push(m, s)),
{
    let m2 = sm_push(m, s);
    assert(m2.frames.drop_last() =~= m.frames.drop_last());
    assert(m2.frames.last() =~= m.frames.last().push(s.name_spec()));
    assert(frames_concat(m2.frames) =~= frames_concat(m.frames.drop_last())
        + m.frames.last().push(s.name_spec()));
    assert(frames_concat(m.frames) =~= frames_concat(m.frames.drop_last()) + m.frames.last());
    assert(names_of(m.symbols.push(s)) =~= names_of(m.symbols).push(s.name_spec()));
    assert(frames_concat(m2.frames) =~= names_of(m2.symbols));
}

pub proof fn lemma_wf_end_scope<S: Named>(m: StackModel<S>)
    requires
        sm_wf(m),
        m.frames.len() > 0,
    ensures
        m.frames.last().len() <= m.symbols.len(),
        sm_wf(sm_end_scope(m)),
        names_of(m.symbols).skip(m.symbols.len() - m.frames.last().len())
            == m.frames.last(),
{
    let rest = frames_concat(m.frames.drop_last());
    let f = m.frames.last();
    assert(frames_concat(m.frames) == rest + f);
    assert(names_of(m.symbols).len() == m.symbols.len());
    let cut = m.symbols.len() - f.len();
    assert(rest.len() == cut);
    let m2 = sm_end_scope(m);
    assert(names_of(m2.symbols) =~= names_of(m.symbols).take(cut));
    assert(names_of(m.symbols).take(cut) =~= rest);
    assert(names_of(m.symbols).skip(cut) =~= f);
}

// ===== The executable scoped stack =====

/// A flat list of named symbols and a stack of scope frames; each frame
/// records the names pushed since the matching `new_scope`.
#[derive(Debug)]
pub struct ScopedStack<S> {
    symbols: Vec<S>,
    scope: Vec<Vec<String>>,
}

pub open spec fn frame_names(f: Seq<String>) -> Seq<Seq<char>> {
    Seq::new(f.len(), |j: int| f[j]@)
}

pub open spec fn frames_deep(s: Seq<Vec<String>>) -> Seq<Seq<Seq<char>>> {
    Seq::new(s.len(), |i: int| frame_names(s[i]@))
}

/// The rightmost entry with the given name, scanning back to front.
fn rposition_of<S: Named>(v: &Vec<S>, name: &String) -> (r: Option<usize>)
    requires
        forall|i: int| 0 <= i < v@.len() ==> (#[trigger] v@[i]).wf_named(),
    ensures
        match r {
            Some(j) => last_index_of(v@, name@) == Some(j as int),
            None => last_index_of(v@, name@) is None,
        },
{
    let mut i: usize = v.len();
    while i > 0
        invariant
            i <= v@.len(),
            forall|i0: int| 0 <= i0 < v@.len() ==> (#[trigger] v@[i0]).wf_named(),
            forall|j: int| i <= j < v@.len() ==> (#[trigger] v@[j]).name_spec() != name@,
        decreases i,
    {
        i = i - 1;
        let nm = v[i].get_name();
        if nm == *name {
            proof {
                lemma_last_index_of_take(v@, name@, i + 1);
                let t = v@.take(i + 1);
                assert(t.last() == v@[i as int]);
            }
            return Some(i);
        }
    }
    proof {
        lemma_last_index_of_take(v@, name@, 0);
        assert(v@.take(0) =~= Seq::<S>::empty());
    }
    None
}

impl<S: Named + Clone> ScopedStack<S> {
    /// The ghost model of this stack.
    pub closed spec fn model(&self) -> StackModel<S> {
        StackModel { symbols: self.symbols@, frames: frames_deep(self.scope@) }
    }

    pub open spec fn wf(&self) -> bool {
        sm_wf(self.model())
    }

    pub fn new() -> (r: Self)
        ensures
            r.model() == sm_empty::<S>(),
            r.wf(),
    {
        let r = Self { symbols: Vec::new(), scope: Vec::new() };
        proof {
            assert(r.model().frames =~~= sm_empty::<S>().frames);
            assert(r.model() =~~= sm_empty::<S>());
            assert(frames_concat(r.model().frames) =~= names_of(r.model().symbols));
        }
        r
    }

    /// Open a fresh scope frame.
    pub fn new_scope(&mut self)
        ensures
            final(self).model() == sm_new_scope(old(self).model()),
            old(self).wf() ==> final(self).wf(),
    {
        self.scope.push(Vec::new());
        proof {
            assert(final(self).model().frames =~~= sm_new_scope(old(self).model()).frames);
            assert(final(self).model() =~~= sm_new_scope(old(self).model()));
            if old(self).wf() {
                lemma_wf_new_scope(old(self).model());
            }
        }
    }

    /// Append a symbol to the flat list and record its name in the top frame.
    pub fn push(&mut self, value: S)
        requires
            old(self).wf(),
            old(self).model().frames.len() > 0,
            value.wf_named(),
    ensures
            final(self).model() == sm_push(old(self).model(), value),
            final(self).wf(),
    {
        let ghost m = old(self).model();
        let name = value.get_name();
        self.symbols.push(value);
        let mut top = self.scope.pop().unwrap();
        top.push(name);
        self.scope.push(top);
        proof {
            let m2 = sm_push(m, value);
            assert(frame_names(top@) =~= m.frames.last().push(value.name_spec()));
            assert(final(self).model().frames =~~= m2.frames);
            assert(final(self).model() =~~= m2);
            lemma_wf_push(m, value);
        }
    }

    /// Close the top scope: remove, for each name recorded in it, the
    /// rightmost matching entry.  Under well-formedness this removes exactly
    /// the symbols pushed in the scope, restoring the flat list beneath it.
    pub fn end_scope(&mut self)
        requires
            old(self).wf(),
            old(self).model().frames.len() > 0,
        ensures
            final(self).model() == sm_end_scope(old(self).model()),
            final(self).wf(),
    {
        broadcast use vstd::seq_lib::group_to_multiset_ensures;

        let ghost m = old(self).model();
        proof {
            lemma_wf_end_scope(m);
        }
        let frame = self.scope.pop().unwrap();
        let ghost fnames = frame_names(frame@);
        let ghost cut = m.symbols.len() - fnames.len();
        let ghost base = m.symbols.take(cut as int);
        let ghost mut seg = m.symbols.skip(cut as int);
        proof {
            assert(fnames =~= m.frames.last());
            assert(names_of(seg) =~= names_of(m.symbols).skip(cut as int));
            assert(names_of(seg) == fnames);
            assert(m.symbols =~= base + seg);
        }
        proof {
            assert(fnames.skip(0) =~= fnames);
        }
        let mut t: usize = 0;
        while t < frame.len()
            invariant
                t <= fnames.len(),
                fnames == frame_names(frame@),
                self.symbols@ == base + seg,
                names_of(seg).to_multiset() == fnames.skip(t as int).to_multiset(),
                forall|i: int|
                    0 <= i < self.symbols@.len() ==> (#[trigger] self.symbols@[i]).wf_named(),
                self.scope@ == old(self).scope@.drop_last(),
            decreases frame@.len() - t,
        {
            let target = &frame[t];
            proof {
                let rem = fnames.skip(t as int);
                assert(rem[0] == fnames[t as int]);
                assert(rem.contains(fnames[t as int]));
                rem.to_multiset_ensures();
                names_of(seg).to_multiset_ensures();
                assert(rem.to_multiset().count(fnames[t as int]) > 0);
                assert(names_of(seg).to_multiset().count(fnames[t as int]) > 0);
                assert(names_of(seg).contains(fnames[t as int]));
                let w = choose|w: int|
                    0 <= w < names_of(seg).len() && names_of(seg)[w] == fnames[t as int];
                assert(self.symbols@[base.len() + w].name_spec() == fnames[t as int]);
                lemma_last_index_of(self.symbols@, target@);
                if last_index_of(self.symbols@, target@) is None {
                    assert(false);
                }
            }
            let j_opt = rposition_of(&self.symbols, target);
            match j_opt {
                Some(j) => {
                    proof {
                        lemma_last_index_of(self.symbols@, target@);
                        // the rightmost match cannot lie below the segment,
                        // because the segment still holds this name
                        let w = choose|w: int|
                            0 <= w < names_of(seg).len()
                                && names_of(seg)[w] == fnames[t as int];
                        assert(self.symbols@[base.len() + w].name_spec() == target@);
                        assert(j >= base.len());
                    }
                    let _ = self.symbols.remove(j);
                    proof {
                        let k = j - base.len();
                        let old_syms = base + seg;
                        assert(old_syms[j as int].name_spec() == target@);
                        assert(names_of(seg)[k as int] == target@);
                        assert(old_syms.remove(j as int) =~= base + seg.remove(k as int));
                        assert(names_of(seg.remove(k as int)) =~= names_of(seg).remove(
                            k as int,
                        ));
                        let rem = fnames.skip(t as int);
                        assert(rem.remove(0) =~= fnames.skip(t + 1int));
                        assert(rem.remove(0).to_multiset() == rem.to_multiset().remove(
                            rem[0],
                        ));
                        assert(names_of(seg).remove(k as int).to_multiset() == names_of(
                            seg,
                        ).to_multiset().remove(target@));
                        seg = seg.remove(k as int);
                        assert(names_of(seg).to_multiset() == fnames.skip(
                            t + 1int,
                        ).to_multiset());
                    }
                },
                None => {
                    proof {
                        assert(false);
                    }
                },
            }
            t = t + 1;
        }
        proof {
            assert(fnames.skip(fnames.len() as int) =~= Seq::<Seq<char>>::empty());
            assert(Seq::<Seq<char>>::empty().to_multiset().len() == 0);
            assert(names_of(seg).to_multiset().len() == 0);
            assert(names_of(seg).len() == seg.len());
            assert(seg.len() == 0);
            assert(self.symbols@ =~= base);
            assert(final(self).model().frames =~~= sm_end_scope(m).frames);
            assert(final(self).model() =~~= sm_end_scope(m));
            lemma_wf_end_scope(m);
        }
    }

    /// How many symbols are visible, over all scopes.
    pub fn symbol_count(&self) -> (r: usize)
        ensures
            r == self.model().symbols.len(),
    {
        self.symbols.len()
    }

    /// Find the nearest visible symbol from the end to the start.
    pub fn find_rvisiblle(&self, name: &str) -> (r: Option<S>)
        requires
            self.wf(),
        ensures
            match r {
                Some(s) => {
                    &&& last_index_of(self.model().symbols, name@) matches Some(i)
                    &&& cloned::<S>(
                        self.model().symbols[last_index_of(
                            self.model().symbols,
                            name@,
                        )->Some_0],
                        s,
                    )
                },
                None => last_index_of(self.model().symbols, name@) is None,
            },
    {
        let key: String = name.to_owned();
        match rposition_of(&self.symbols, &key) {
            Some(j) => {
                proof {
                    lemma_last_index_of(self.symbols@, key@);
                }
                Some(self.symbols[j].clone())
            },
            None => None,
        }
    }
}

// ===== Stacks of ghost elements =====
//
// A stack of executable symbols is abstracted to a stack of their views; the
// element type of the view is not `Named`, so its name is passed explicitly.

pub open spec fn smv_push<T>(m: StackModel<T>, s: T, n: Seq<char>) -> StackModel<T>
    recommends
        m.frames.len() > 0,
{
    StackModel {
        symbols: m.symbols.push(s),
        frames: m.frames.update(m.frames.len() - 1, m.frames.last().push(n)),
    }
}

/// The index of the rightmost element whose name, under `nf`, is `name`.
pub open spec fn smv_find<T>(syms: Seq<T>, nf: spec_fn(T) -> Seq<char>, name: Seq<char>) -> Option<
    int,
>
    decreases syms.len(),
{
    if syms.len() == 0 {
        None
    } else if nf(syms.last()) == name {
        Some(syms.len() - 1)
    } else {
        smv_find(syms.drop_last(), nf, name)
    }
}

/// A stack model mapped element-wise into the ghost world.
pub open spec fn map_model<S, T>(m: StackModel<S>, f: spec_fn(S) -> T) -> StackModel<T> {
    StackModel { symbols: m.symbols.map_values(f), frames: m.frames }
}

pub proof fn lemma_map_new_scope<S, T>(m: StackModel<S>, f: spec_fn(S) -> T)
    ensures
        map_model(sm_new_scope(m), f) == sm_new_scope(map_model(m, f)),
{
    assert(map_model(sm_new_scope(m), f).symbols =~= sm_new_scope(map_model(m, f)).symbols);
    assert(map_model(sm_new_scope(m), f) =~= sm_new_scope(map_model(m, f)));
}

pub proof fn lemma_map_push<S: Named, T>(m: StackModel<S>, f: spec_fn(S) -> T, s: S)
    requires
        m.frames.len() > 0,
    ensures
        map_model(sm_push(m, s), f) == smv_push(map_model(m, f), f(s), s.name_spec()),
{
    assert(map_model(sm_push(m, s), f).symbols =~= smv_push(
        map_model(m, f),
        f(s),
        s.name_spec(),
    ).symbols);
    assert(map_model(sm_push(m, s), f) =~= smv_push(map_model(m, f), f(s), s.name_spec()));
}

pub proof fn lemma_map_end_scope<S, T>(m: StackModel<S>, f: spec_fn(S) -> T)
    requires
        m.frames.len() > 0,
        m.frames.last().len() <= m.symbols.len(),
    ensures
        map_model(sm_end_scope(m), f) == sm_end_scope(map_model(m, f)),
{
    assert(map_model(sm_end_scope(m), f).symbols =~= sm_end_scope(map_model(m, f)).symbols);
    assert(map_model(sm_end_scope(m), f) =~= sm_end_scope(map_model(m, f)));
}

pub proof fn lemma_map_find<S: Named, T>(
    syms: Seq<S>,
    f: spec_fn(S) -> T,
    nf: spec_fn(T) -> Seq<char>,
    name: Seq<char>,
)
    requires
        forall|i: int| 0 <= i < syms.len() ==> nf(f(#[trigger] syms[i])) == syms[i].name_spec(),
    ensures
        smv_find(syms.map_values(f), nf, name) == last_index_of(syms, name),
    decreases syms.len(),
{
    let mapped = syms.map_values(f);
    if syms.len() > 0 {
        assert(mapped.last() == f(syms.last()));
        if syms.last().name_spec() != name {
            lemma_map_find(syms.drop_last(), f, nf, name);
            assert(mapped.drop_last() =~= syms.drop_last().map_values(f));
        }
    }
}

/// Stack `m2` extends `m1` without leaving the innermost scope: the outer
/// frames are untouched, and the innermost frame and the symbol list have
/// only grown, in step with each other.
pub open spec fn smv_extends<T>(m1: StackModel<T>, m2: StackModel<T>) -> bool {
    &&& m1.frames.len() > 0
    &&& m2.frames.len() == m1.frames.len()
    &&& m2.frames.drop_last() == m1.frames.drop_last()
    &&& m1.frames.last().is_prefix_of(m2.frames.last())
    &&& m1.symbols.is_prefix_of(m2.symbols)
    &&& m2.symbols.len() - m1.symbols.len() == m2.frames.last().len() - m1.frames.last().len()
}

pub proof fn lemma_smv_extends_refl<T>(m: StackModel<T>)
    requires
        m.frames.len() > 0,
    ensures
        smv_extends(m, m),
{
    assert(m.frames.last() =~= m.frames.last().subrange(0, m.frames.last().len() as int));
    assert(m.symbols =~= m.symbols.subrange(0, m.symbols.len() as int));
}

pub proof fn lemma_smv_extends_trans<T>(a: StackModel<T>, b: StackModel<T>, c: StackModel<T>)
    requires
        smv_extends(a, b),
        smv_extends(b, c),
    ensures
        smv_extends(a, c),
{
    assert(a.frames.last() =~= c.frames.last().subrange(0, a.frames.last().len() as int));
    assert(a.symbols =~= c.symbols.subrange(0, a.symbols.len() as int));
}

/// A push stays within the innermost scope.
pub proof fn lemma_smv_extends_push<T>(m: StackModel<T>, s: T, n: Seq<char>)
    requires
        m.frames.len() > 0,
    ensures
        smv_extends(m, smv_push(m, s, n)),
{
    let m2 = smv_push(m, s, n);
    assert(m2.frames.drop_last() =~= m.frames.drop_last());
    assert(m2.frames.last() =~= m.frames.last().push(n));
    assert(m.frames.last() =~= m2.frames.last().subrange(0, m.frames.last().len() as int));
    assert(m.symbols =~= m2.symbols.subrange(0, m.symbols.len() as int));
}

/// Whatever happened within a freshly opened scope, ending that scope
/// restores the stack exactly.
pub proof fn lemma_smv_extends_wrap<T>(m: StackModel<T>, m2: StackModel<T>)
    requires
        smv_extends(sm_new_scope(m), m2),
    ensures
        sm_end_scope(m2) == m,
{
    let m1 = sm_new_scope(m);
    assert(m1.frames.drop_last() =~= m.frames);
    assert(m1.frames.last().len() == 0);
    let grown = m2.frames.last().len();
    assert(m2.symbols.len() == m.symbols.len() + grown);
    let m3 = sm_end_scope(m2);
    assert(m3.frames =~= m.frames);
    assert(m3.symbols =~= m.symbols);
    assert(m3 =~= m);
}

// ===== Laws of scoping =====

/// Push each item of `items`, left to right.
pub open spec fn sm_push_all<S: Named>(m: StackModel<S>, items: Seq<S>) -> StackModel<S>
    decreases items.len(),
{
    if items.len() == 0 {
        m
    } else {
        sm_push(sm_push_all(m, items.drop_last()), items.last())
    }
}

proof fn lemma_push_all_shape<S: Named>(m: StackModel<S>, items: Seq<S>)
    requires
        m.frames.len() > 0,
    ensures
        sm_push_all(m, items).symbols == m.symbols + items,
        sm_push_all(m, items).frames.len() == m.frames.len(),
        sm_push_all(m, items).frames.drop_last() == m.frames.drop_last(),
        sm_push_all(m, items).frames.last() == m.frames.last() + names_of(items),
    decreases items.len(),
{
    if items.len() == 0 {
        assert(sm_push_all(m, items).symbols =~= m.symbols + items);
        assert(m.frames.last() + names_of(items) =~= m.frames.last());
    } else {
        lemma_push_all_shape(m, items.drop_last());
        let m1 = sm_push_all(m, items.drop_last());
        let m2 = sm_push(m1, items.last());
        assert(m2.symbols =~= m.symbols + items);
        assert(m2.frames.drop_last() =~= m1.frames.drop_last());
        assert(m2.frames.last() =~= m.frames.last() + names_of(items));
    }
}

/// Shadowing, part one: a binding pushed for a name is the one that lookup
/// finds, whatever older bindings of the same name stand below it.
pub proof fn lemma_push_shadows<S: Named>(m: StackModel<S>, s: S)
    requires
        m.frames.len() > 0,
    ensures
        last_index_of(sm_push(m, s).symbols, s.name_spec())
            == Some(m.symbols.len() as int),
        sm_push(m, s).symbols[m.symbols.len() as int] == s,
{
    let syms = sm_push(m, s).symbols;
    assert(syms.last() == s);
}

/// Shadowing, part two: a lookup for any other name is unaffected by the push.
pub proof fn lemma_push_preserves_other_names<S: Named>(m: StackModel<S>, s: S, name: Seq<char>)
    requires
        m.frames.len() > 0,
        name != s.name_spec(),
    ensures
        last_index_of(sm_push(m, s).symbols, name) == last_index_of(m.symbols, name),
{
    let syms = sm_push(m, s).symbols;
    assert(syms.drop_last() =~= m.symbols);
}

/// Scope restoration: opening a scope, pushing any items in it, and ending
/// the scope returns the stack to exactly its previous state, so every outer
/// binding becomes visible again.
pub proof fn lemma_scope_restore<S: Named>(m: StackModel<S>, items: Seq<S>)
    ensures
        sm_end_scope(sm_push_all(sm_new_scope(m), items)) == m,
{
    let m1 = sm_new_scope(m);
    lemma_push_all_shape(m1, items);
    let m2 = sm_push_all(m1, items);
    assert(m2.frames.last() =~= names_of(items));
    assert(names_of(items).len() == items.len());
    let m3 = sm_end_scope(m2);
    assert(m3.symbols =~= m.symbols);
    assert(m3.frames =~= m.frames);
    assert(m3 =~= m);
}

} // verus!
