//! Nested name scopes: a stack of frames, each mapping names to values.
//! A later entry in a frame hides an earlier one with the same name, and an
//! inner frame hides the frames around it.
use vstd::prelude::*;
use crate::text::owned;

verus! {

/// What a frame maps each name to: the value of the last entry with that name.
pub open spec fn frame_map<V: View>(f: Seq<(String, V)>) -> Map<Seq<char>, V::V>
    decreases f.len(),
{
    if f.len() == 0 {
        Map::empty()
    } else {
        frame_map(f.drop_last()).insert(f.last().0@, f.last().1@)
    }
}

/// The value `name` resolves to in a stack of frames: the innermost frame
/// that holds it decides.
pub open spec fn resolve<V>(frames: Seq<Map<Seq<char>, V>>, name: Seq<char>) -> Option<V>
    decreases frames.len(),
{
    if frames.len() == 0 {
        None
    } else if frames.last().contains_key(name) {
        Some(frames.last()[name])
    } else {
        resolve(frames.drop_last(), name)
    }
}

/// A stack of frames of named values.
pub struct Scopes<V: View> {
    pub frames: Vec<Vec<(String, V)>>,
}

impl<V: View> View for Scopes<V> {
    type V = Seq<Map<Seq<char>, V::V>>;

    open spec fn view(&self) -> Seq<Map<Seq<char>, V::V>> {
        self.frames@.map_values(|f: Vec<(String, V)>| frame_map(f@))
    }
}

pub(crate) proof fn lemma_frame_skip<V: View>(f: Seq<(String, V)>, n: int, k: Seq<char>)
    requires
        0 <= n <= f.len(),
        forall|j: int| n <= j < f.len() ==> (#[trigger] f[j]).0@ != k,
    ensures
        frame_map(f).contains_key(k) == frame_map(f.take(n)).contains_key(k),
        frame_map(f).contains_key(k) ==> frame_map(f)[k] == frame_map(f.take(n))[k],
    decreases f.len() - n,
{
    if n == f.len() {
        assert(f.take(n) == f);
    } else {
        let g = f.drop_last();
        assert forall|j: int| n <= j < g.len() implies (#[trigger] g[j]).0@ != k by {
            assert(g[j] == f[j]);
        }
        lemma_frame_skip(g, n, k);
        assert(g.take(n) == f.take(n));
        assert(f.last() == f[f.len() - 1]);
    }
}

pub(crate) proof fn lemma_frame_last<V: View>(f: Seq<(String, V)>, i: int)
    requires
        0 <= i < f.len(),
    ensures
        frame_map(f.take(i + 1)).contains_key(f[i].0@),
        frame_map(f.take(i + 1))[f[i].0@] == f[i].1@,
{
    let t = f.take(i + 1);
    assert(t.drop_last() == f.take(i));
    assert(t.last() == f[i]);
}

/// Looks `key` up in one frame.
pub fn frame_get<'a, V: View>(frame: &'a Vec<(String, V)>, key: &String) -> (r: Option<&'a V>)
    ensures
        r.is_some() == frame_map(frame@).contains_key(key@),
        r matches Some(v) ==> v@ == frame_map(frame@)[key@],
{
    let mut i = frame.len();
    while i > 0
        invariant
            i <= frame@.len(),
            forall|j: int| i <= j < frame@.len() ==> (#[trigger] frame@[j]).0@ != key@,
        decreases i,
    {
        i = i - 1;
        if frame[i].0 == *key {
            proof {
                lemma_frame_skip(frame@, i + 1, key@);
                lemma_frame_last(frame@, i as int);
            }
            return Some(&frame[i].1);
        }
    }
    proof {
        lemma_frame_skip(frame@, 0, key@);
        assert(frame@.take(0) == Seq::<(String, V)>::empty());
    }
    None
}

impl<V: View> Scopes<V> {
    /// One empty frame.
    pub fn new() -> (r: Self)
        ensures
            r@ == seq![Map::<Seq<char>, V::V>::empty()],
    {
        let mut frames: Vec<Vec<(String, V)>> = Vec::new();
        frames.push(Vec::new());
        let r = Scopes { frames };
        assert(r@ =~= seq![Map::<Seq<char>, V::V>::empty()]);
        r
    }

    /// Opens a new innermost frame.
    pub fn push_frame(&mut self)
        ensures
            final(self)@ == old(self)@.push(Map::empty()),
    {
        self.frames.push(Vec::new());
        assert(self@ =~= old(self)@.push(Map::empty()));
    }

    /// Drops the innermost frame, if there is one.
    pub fn pop_frame(&mut self)
        ensures
            old(self)@.len() > 0 ==> final(self)@ == old(self)@.drop_last(),
            old(self)@.len() == 0 ==> final(self)@ == old(self)@,
    {
        let _ = self.frames.pop();
        assert(self@ =~= if old(self)@.len() > 0 { old(self)@.drop_last() } else { old(self)@ });
    }

    /// Binds `name` to `v` in the innermost frame.
    pub fn bind(&mut self, name: String, v: V)
        requires
            old(self)@.len() > 0,
        ensures
            final(self)@ == old(self)@.update(
                old(self)@.len() - 1,
                old(self)@.last().insert(name@, v@),
            ),
    {
        let ghost nm = name@;
        let ghost vv = v@;
        let last = self.frames.len() - 1;
        let ghost old_frame = self.frames@[last as int]@;
        self.frames[last].push((name, v));
        assert(self.frames@[last as int]@.drop_last() == old_frame);
        assert(self@ =~= old(self)@.update(old(self)@.len() - 1, old(self)@.last().insert(nm, vv)));
    }

    /// The value bound to `name` in the innermost frame, if any.
    pub fn get_innermost(&self, name: &str) -> (r: Option<&V>)
        ensures
            self@.len() == 0 ==> r.is_none(),
            self@.len() > 0 ==> r.is_some() == self@.last().contains_key(name@),
            r matches Some(v) ==> v@ == self@.last()[name@],
    {
        if self.frames.len() == 0 {
            return None;
        }
        let key = owned(name);
        let last = self.frames.len() - 1;
        frame_get(&self.frames[last], &key)
    }

    /// The value `name` resolves to, searching from the innermost frame out.
    pub fn get(&self, name: &str) -> (r: Option<&V>)
        ensures
            r.is_some() == resolve(self@, name@).is_some(),
            r matches Some(v) ==> resolve(self@, name@) == Some(v@),
    {
        let key = owned(name);
        let mut i = self.frames.len();
        assert(self@.take(self@.len() as int) == self@);
        while i > 0
            invariant
                i <= self.frames@.len(),
                key@ == name@,
                resolve(self@, name@) == resolve(self@.take(i as int), name@),
            decreases i,
        {
            i = i - 1;
            let ghost pre = self@.take(i + 1);
            assert(pre.drop_last() == self@.take(i as int));
            assert(pre.last() == frame_map(self.frames@[i as int]@));
            match frame_get(&self.frames[i], &key) {
                Some(v) => {
                    return Some(v);
                },
                None => {},
            }
        }
        assert(self@.take(0) == Seq::<Map<Seq<char>, V::V>>::empty());
        None
    }
}

} // verus!

verus! {

/// A name just bound in the innermost frame resolves to the bound value.
pub proof fn lemma_resolve_after_bind<V>(frames: Seq<Map<Seq<char>, V>>, name: Seq<char>, v: V)
    requires
        frames.len() > 0,
    ensures
        resolve(frames.update(frames.len() - 1, frames.last().insert(name, v)), name) == Some(v),
{
    let g = frames.update(frames.len() - 1, frames.last().insert(name, v));
    assert(g.last() == frames.last().insert(name, v));
}

/// Binding one name leaves what every other name resolves to unchanged.
pub proof fn lemma_resolve_other_after_bind<V>(
    frames: Seq<Map<Seq<char>, V>>,
    name: Seq<char>,
    v: V,
    other: Seq<char>,
)
    requires
        frames.len() > 0,
        other != name,
    ensures
        resolve(frames.update(frames.len() - 1, frames.last().insert(name, v)), other)
            == resolve(frames, other),
{
    let g = frames.update(frames.len() - 1, frames.last().insert(name, v));
    assert(g.drop_last() == frames.drop_last());
    assert(g.last() == frames.last().insert(name, v));
}

/// Opening a frame and dropping it again gives back the frames as they were.
pub proof fn lemma_push_pop_frame<V>(frames: Seq<Map<Seq<char>, V>>)
    ensures
        frames.push(Map::empty()).drop_last() == frames,
{
    assert(frames.push(Map::empty()).drop_last() =~= frames);
}

/// A fresh frame hides nothing: every name resolves as it did before.
pub proof fn lemma_resolve_after_push<V>(frames: Seq<Map<Seq<char>, V>>, name: Seq<char>)
    ensures
        resolve(frames.push(Map::empty()), name) == resolve(frames, name),
{
    assert(frames.push(Map::empty()).drop_last() =~= frames);
}

} // verus!

verus! {

/// Every value a frame maps a name to is the value of one of its entries
/// with that name.
pub proof fn lemma_frame_value_from_entry<V: View>(f: Seq<(String, V)>, k: Seq<char>)
    requires
        frame_map(f).contains_key(k),
    ensures
        exists|j: int| 0 <= j < f.len() && (#[trigger] f[j]).0@ == k && f[j].1@ == frame_map(f)[k],
    decreases f.len(),
{
    if f.last().0@ == k {
        assert(f[f.len() - 1] == f.last());
    } else {
        lemma_frame_value_from_entry(f.drop_last(), k);
        let j = choose|j: int| 0 <= j < f.drop_last().len() && (#[trigger] f.drop_last()[j]).0@ == k
            && f.drop_last()[j].1@ == frame_map(f.drop_last())[k];
        assert(f[j] == f.drop_last()[j]);
    }
}

/// Adding an entry adds its name to the frame's names.
pub proof fn lemma_frame_push<V: View>(f: Seq<(String, V)>, e: (String, V))
    ensures
        frame_map(f.push(e)) == frame_map(f).insert(e.0@, e.1@),
{
    assert(f.push(e).drop_last() == f);
}

} // verus!
