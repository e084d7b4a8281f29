//! Plain entity components: the sprite tag and the pressed-key set of the
//! input component.

use vstd::prelude::*;

verus! {

/// A drawable tag: a texture path and a visibility flag.
pub struct Sprite {
    pub texture_path: String,
    pub visible: bool,
}

impl Default for Sprite {
    fn default() -> (r: Self)
        ensures
            r.texture_path@.len() == 0,
            r.visible,
    {
        Self { texture_path: String::new(), visible: true }
    }
}

/// `s` with every occurrence of `k` removed.
pub open spec fn spec_without(s: Seq<Seq<char>>, k: Seq<char>) -> Seq<Seq<char>>
    decreases s.len(),
{
    if s.len() == 0 {
        Seq::empty()
    } else {
        (if s[0] == k {
            Seq::<Seq<char>>::empty()
        } else {
            seq![s[0]]
        }) + spec_without(s.drop_first(), k)
    }
}

/// The input component: the keys currently held down, without duplicates.
pub struct Input {
    pub keys_pressed: Vec<String>,
}

impl Default for Input {
    fn default() -> (r: Self)
        ensures
            r.keys_pressed@.len() == 0,
    {
        Self { keys_pressed: Vec::new() }
    }
}

impl Input {
    /// Whether `key` is held down.
    pub fn is_key_pressed(&self, key: &str) -> (r: bool)
        ensures
            r == self.keys_pressed.deep_view().contains(key@),
    {
        let k = key.to_owned();
        let mut i: usize = 0;
        while i < self.keys_pressed.len()
            invariant
                0 <= i <= self.keys_pressed.len(),
                k@ == key@,
                forall|j: int| 0 <= j < i ==> self.keys_pressed.deep_view()[j] != key@,
            decreases self.keys_pressed.len() - i,
        {
            if self.keys_pressed[i] == k {
                proof {
                    assert(self.keys_pressed.deep_view()[i as int] == key@);
                }
                return true;
            }
            proof {
                assert(self.keys_pressed.deep_view()[i as int] == self.keys_pressed@[i as int]@);
            }
            i = i + 1;
        }
        proof {
            assert(!self.keys_pressed.deep_view().contains(key@)) by {
                assert forall|j: int|
                    0 <= j < self.keys_pressed.deep_view().len() implies self.keys_pressed.deep_view()[j]
                    != key@ by {}
            }
        }
        false
    }

    /// Records `key` as held down; a key already down is not recorded twice.
    pub fn press_key(&mut self, key: String)
        ensures
            if old(self).keys_pressed.deep_view().contains(key@) {
                final(self).keys_pressed@ == old(self).keys_pressed@
            } else {
                final(self).keys_pressed.deep_view() == old(self).keys_pressed.deep_view().push(
                    key@,
                )
            },
    {
        if !self.is_key_pressed(key.as_str()) {
            let ghost k0 = self.keys_pressed.deep_view();
            let ghost kv = key@;
            self.keys_pressed.push(key);
            proof {
                assert(self.keys_pressed.deep_view() =~~= k0.push(kv));
            }
        }
    }

    /// Releases `key`: every copy of it leaves the set.
    pub fn release_key(&mut self, key: &str)
        ensures
            final(self).keys_pressed.deep_view() == spec_without(
                old(self).keys_pressed.deep_view(),
                key@,
            ),
    {
        let ghost ks = self.keys_pressed.deep_view();
        let k = key.to_owned();
        let mut out: Vec<String> = Vec::new();
        let mut i: usize = 0;
        proof {
            assert(ks.subrange(0, ks.len() as int) =~= ks);
            assert(out.deep_view() + spec_without(ks, key@) =~~= spec_without(ks, key@));
        }
        while i < self.keys_pressed.len()
            invariant
                0 <= i <= self.keys_pressed.len(),
                ks == self.keys_pressed.deep_view(),
                ks.len() == self.keys_pressed@.len(),
                k@ == key@,
                spec_without(ks, key@) == out.deep_view() + spec_without(
                    ks.subrange(i as int, ks.len() as int),
                    key@,
                ),
            decreases self.keys_pressed.len() - i,
        {
            let ghost rem = ks.subrange(i as int, ks.len() as int);
            proof {
                assert(rem[0] == ks[i as int]);
                assert(ks[i as int] == self.keys_pressed@[i as int]@);
                assert(rem.drop_first() =~= ks.subrange(i + 1, ks.len() as int));
            }
            if !(self.keys_pressed[i] == k) {
                let ghost o0 = out.deep_view();
                let kept = self.keys_pressed[i].clone();
                out.push(kept);
                proof {
                    assert(out.deep_view() =~~= o0.push(ks[i as int]));
                    assert(out.deep_view() + spec_without(
                        ks.subrange(i + 1, ks.len() as int),
                        key@,
                    ) =~~= spec_without(ks, key@));
                }
            } else {
                proof {
                    assert(out.deep_view() + spec_without(
                        ks.subrange(i + 1, ks.len() as int),
                        key@,
                    ) =~~= spec_without(ks, key@));
                }
            }
            i = i + 1;
        }
        proof {
            assert(ks.subrange(i as int, ks.len() as int) =~= Seq::<Seq<char>>::empty());
            assert(out.deep_view() =~~= spec_without(ks, key@));
        }
        self.keys_pressed = out;
    }
}

} // verus!
