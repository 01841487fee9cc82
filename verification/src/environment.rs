use vstd::prelude::*;

use crate::value::SpecVal;
use crate::value::Value;
use crate::value::sv_wf;

verus! {

broadcast use vstd::std_specs::vec::group_vec_axioms;

/// The mathematical shape of one scope frame: name-to-value bindings
/// in the order they were first made.
pub type SpecFrame = Seq<(Seq<char>, SpecVal)>;

/// A chain of scope frames, outermost first. A lookup walks from the
/// innermost frame outward; a binding always writes the innermost
/// frame. Because a call pushes a child frame and its return pops it,
/// the live chain of parent scopes is always a stack, and the whole
/// chain can live in one vector.
#[derive(Debug)]
pub struct Environment {
    pub frames: Vec<Vec<(String, Value)>>,
}

/// The view of one executable frame.
pub open spec fn frame_dv(s: Seq<(String, Value)>) -> SpecFrame
    decreases s.len(),
{
    if s.len() == 0 {
        Seq::empty()
    } else {
        frame_dv(s.drop_last()).push((s.last().0@, s.last().1.dv()))
    }
}

pub proof fn lemma_frame_dv(s: Seq<(String, Value)>)
    ensures
        frame_dv(s).len() == s.len(),
        forall|i: int|
            0 <= i < s.len() ==> frame_dv(s)[i] == ((#[trigger] s[i]).0@, s[i].1.dv()),
    decreases s.len(),
{
    if s.len() > 0 {
        lemma_frame_dv(s.drop_last());
        assert forall|i: int|
            0 <= i < s.len() implies frame_dv(s)[i] == ((#[trigger] s[i]).0@, s[i].1.dv()) by {
            if i < s.len() - 1 {
                assert(s.drop_last()[i] == s[i]);
                assert(frame_dv(s.drop_last())[i] == (s.drop_last()[i].0@, s.drop_last()[i].1.dv()));
            } else {
                assert(s.last() == s[i]);
            }
        }
    }
}

/// Lookup within one frame: the earliest binding of the name.
pub open spec fn frame_get(f: SpecFrame, name: Seq<char>) -> Option<SpecVal>
    decreases f.len(),
{
    if f.len() == 0 {
        None
    } else if f[0].0 == name {
        Some(f[0].1)
    } else {
        frame_get(f.subrange(1, f.len() as int), name)
    }
}

/// Binding within one frame: replaces the binding of the name in
/// place, or appends a new one.
pub open spec fn frame_set(f: SpecFrame, name: Seq<char>, v: SpecVal) -> SpecFrame
    decreases f.len(),
{
    if f.len() == 0 {
        seq![(name, v)]
    } else if f[0].0 == name {
        seq![(name, v)] + f.subrange(1, f.len() as int)
    } else {
        seq![f[0]] + frame_set(f.subrange(1, f.len() as int), name, v)
    }
}

/// Lookup through the chain, innermost frame first.
pub open spec fn env_get(env: Seq<SpecFrame>, name: Seq<char>) -> Option<SpecVal>
    decreases env.len(),
{
    if env.len() == 0 {
        None
    } else {
        match frame_get(env.last(), name) {
            Some(v) => Some(v),
            None => env_get(env.drop_last(), name),
        }
    }
}

/// Binding: always into the innermost frame.
pub open spec fn env_set(env: Seq<SpecFrame>, name: Seq<char>, v: SpecVal) -> Seq<SpecFrame> {
    env.drop_last().push(frame_set(env.last(), name, v))
}

/// Every value bound anywhere in the chain is well formed.
pub open spec fn env_wf(env: Seq<SpecFrame>) -> bool {
    forall|i: int, j: int|
        0 <= i < env.len() && 0 <= j < env[i].len() ==> sv_wf((#[trigger] env[i][j]).1)
}

impl Environment {
    /// The view: the chain of frame views, outermost first.
    pub open spec fn dv(&self) -> Seq<SpecFrame> {
        Seq::new(self.frames@.len() as nat, |i: int| frame_dv(self.frames@[i]@))
    }

    /// A fresh chain of one empty root frame.
    pub fn new() -> (r: Environment)
        ensures
            r.dv().len() == 1,
            r.dv()[0].len() == 0,
            env_wf(r.dv()),
    {
        let mut frames: Vec<Vec<(String, Value)>> = Vec::new();
        frames.push(Vec::new());
        Environment { frames }
    }

    /// Pushes a fresh innermost frame, as a function call does.
    pub fn extend(&mut self)
        ensures
            final(self).dv() =~= old(self).dv().push(Seq::empty()),
    {
        self.frames.push(Vec::new());
    }

    /// Drops the innermost frame, as a function return does.
    pub fn retract(&mut self)
        requires
            old(self).dv().len() >= 1,
        ensures
            final(self).dv() =~= old(self).dv().drop_last(),
    {
        let _ = self.frames.pop();
    }

    /// Looks the name up, innermost frame first, and hands back a copy
    /// of the bound value.
    pub fn get(&self, name: &str) -> (r: Option<Value>)
        ensures
            r is Some <==> env_get(self.dv(), name@) is Some,
            r matches Some(v) ==> env_get(self.dv(), name@) == Some(v.dv()),
    {
        let owned = String::from_str(name);
        let ghost ed = self.dv();
        proof {
            assert(ed.subrange(0, ed.len() as int) =~= ed);
        }
        let mut i: usize = self.frames.len();
        while i > 0
            invariant
                0 <= i <= self.frames@.len(),
                ed == self.dv(),
                ed.len() == self.frames@.len(),
                owned@ == name@,
                env_get(ed, name@) == env_get(ed.subrange(0, i as int), name@),
            decreases i,
        {
            let i1 = i - 1;
            let r = frame_lookup(&self.frames[i1], &owned);
            proof {
                assert(owned@ == name@);
            }
            proof {
                assert(ed.subrange(0, i as int).last() == ed[i1 as int]);
                assert(ed[i1 as int] == frame_dv(self.frames@[i1 as int]@));
                assert(ed.subrange(0, i as int).drop_last() =~= ed.subrange(0, i1 as int));
            }
            match r {
                Some(v) => {
                    return Some(v);
                },
                None => {},
            }
            i = i1;
        }
        proof {
            assert(ed.subrange(0, 0) =~= Seq::<SpecFrame>::empty());
        }
        None
    }

    /// Binds the name in the innermost frame, replacing any binding it
    /// already holds there.
    pub fn set(&mut self, name: &str, val: Value)
        requires
            old(self).dv().len() >= 1,
        ensures
            final(self).dv() =~= env_set(old(self).dv(), name@, val.dv()),
    {
        let owned = String::from_str(name);
        let ghost ed = old(self).dv();
        let mut frame = self.frames.pop().unwrap();
        let ghost fd = frame_dv(frame@);
        frame_bind(&mut frame, &owned, val);
        proof {
            assert(owned@ == name@);
        }
        self.frames.push(frame);
        proof {
            assert(fd == ed.last());
            assert forall|k: int| 0 <= k < self.dv().len() implies self.dv()[k] == env_set(
                ed,
                name@,
                val.dv(),
            )[k] by {
                if k < ed.len() - 1 {
                    assert(self.frames@[k] == old(self).frames@[k]);
                    assert(env_set(ed, name@, val.dv())[k] == ed.drop_last()[k]);
                    assert(ed.drop_last()[k] == ed[k]);
                }
            }
            assert(self.dv() =~= env_set(ed, name@, val.dv()));
        }
    }
}

/// Lookup within one executable frame.
fn frame_lookup(f: &Vec<(String, Value)>, name: &String) -> (r: Option<Value>)
    ensures
        r is Some <==> frame_get(frame_dv(f@), name@) is Some,
        r matches Some(v) ==> frame_get(frame_dv(f@), name@) == Some(v.dv()),
{
    proof {
        lemma_frame_dv(f@);
    }
    let ghost fd = frame_dv(f@);
    proof {
        assert(fd.subrange(0, fd.len() as int) =~= fd);
    }
    let mut j: usize = 0;
    while j < f.len()
        invariant
            0 <= j <= f@.len(),
            fd == frame_dv(f@),
            fd.len() == f@.len(),
            forall|i: int| 0 <= i < f@.len() ==> fd[i] == ((#[trigger] f@[i]).0@, f@[i].1.dv()),
            frame_get(fd, name@) == frame_get(fd.subrange(j as int, fd.len() as int), name@),
        decreases f@.len() - j,
    {
        proof {
            assert(fd.subrange(j as int, fd.len() as int)[0] == fd[j as int]);
        }
        if f[j].0 == *name {
            return Some(f[j].1.clone());
        }
        proof {
            assert(fd.subrange(j as int, fd.len() as int).subrange(
                1,
                fd.subrange(j as int, fd.len() as int).len() as int,
            ) =~= fd.subrange(j as int + 1, fd.len() as int));
        }
        j += 1;
    }
    proof {
        assert(fd.subrange(fd.len() as int, fd.len() as int) =~= Seq::<(Seq<char>,
            SpecVal,
        )>::empty());
    }
    None
}

/// Binding within one executable frame.
fn frame_bind(f: &mut Vec<(String, Value)>, name: &String, val: Value)
    ensures
        frame_dv(final(f)@) =~= frame_set(frame_dv(old(f)@), name@, val.dv()),
{
    proof {
        lemma_frame_dv(old(f)@);
    }
    let ghost fd = frame_dv(old(f)@);
    proof {
        assert(fd.subrange(0, fd.len() as int) =~= fd);
        assert(fd.subrange(0, 0) =~= Seq::<(Seq<char>, SpecVal)>::empty());
    }
    let mut j: usize = 0;
    while j < f.len()
        invariant
            0 <= j <= f@.len(),
            f@ == old(f)@,
            fd == frame_dv(old(f)@),
            fd.len() == f@.len(),
            forall|i: int| 0 <= i < f@.len() ==> fd[i] == ((#[trigger] f@[i]).0@, f@[i].1.dv()),
            frame_set(fd, name@, val.dv()) =~= fd.subrange(0, j as int) + frame_set(
                fd.subrange(j as int, fd.len() as int),
                name@,
                val.dv(),
            ),
        decreases f@.len() - j,
    {
        let ghost tail = fd.subrange(j as int, fd.len() as int);
        proof {
            assert(tail[0] == fd[j as int]);
        }
        if f[j].0 == *name {
            proof {
                assert(tail.subrange(1, tail.len() as int) =~= fd.subrange(
                    j as int + 1,
                    fd.len() as int,
                ));
                assert(frame_set(tail, name@, val.dv()) =~= seq![(name@, val.dv())] + fd.subrange(
                    j as int + 1,
                    fd.len() as int,
                ));
            }
            f.set(j, (clone_string(name), val));
            proof {
                lemma_frame_dv(f@);
                let target = frame_set(fd, name@, val.dv());
                assert(target =~= fd.subrange(0, j as int) + (seq![(name@, val.dv())]
                    + fd.subrange(j as int + 1, fd.len() as int)));
                assert forall|i: int| 0 <= i < f@.len() implies frame_dv(f@)[i] == target[i] by {
                    assert(frame_dv(f@)[i] == (f@[i].0@, f@[i].1.dv()));
                    if i < j {
                        assert(f@[i] == old(f)@[i]);
                        assert(target[i] == fd[i]);
                    } else if i == j {
                        assert(target[i] == (name@, val.dv()));
                    } else {
                        assert(f@[i] == old(f)@[i]);
                        assert(target[i] == fd[i]);
                    }
                }
                assert(frame_dv(f@) =~= target);
            }
            return ;
        }
        proof {
            assert(tail.subrange(1, tail.len() as int) =~= fd.subrange(
                j as int + 1,
                fd.len() as int,
            ));
            assert(frame_set(fd, name@, val.dv()) =~= fd.subrange(0, j as int + 1) + frame_set(
                fd.subrange(j as int + 1, fd.len() as int),
                name@,
                val.dv(),
            ));
        }
        j += 1;
    }
    proof {
        assert(fd.subrange(fd.len() as int, fd.len() as int) =~= Seq::<(Seq<char>,
            SpecVal,
        )>::empty());
    }
    let cs = clone_string(name);
    f.push((cs, val));
    proof {
        assert(f@.drop_last() =~= old(f)@);
        assert(frame_dv(f@) == frame_dv(f@.drop_last()).push((f@.last().0@, f@.last().1.dv())));
        assert(frame_dv(f@) == fd.push((name@, val.dv())));
        assert(frame_set(fd, name@, val.dv()) =~= fd + frame_set(
            fd.subrange(fd.len() as int, fd.len() as int),
            name@,
            val.dv(),
        ));
        assert(frame_dv(f@) =~= frame_set(fd, name@, val.dv()));
    }
}

fn clone_string(s: &String) -> (r: String)
    ensures
        r@ == s@,
{
    s.clone()
}

} // verus!

verus! {

/// Every value bound in one frame is well formed.
pub open spec fn frame_wf(f: SpecFrame) -> bool {
    forall|j: int| 0 <= j < f.len() ==> sv_wf((#[trigger] f[j]).1)
}

pub proof fn lemma_env_wf_frame(env: Seq<SpecFrame>, i: int)
    requires
        env_wf(env),
        0 <= i < env.len(),
    ensures
        frame_wf(env[i]),
{
    assert forall|j: int| 0 <= j < env[i].len() implies sv_wf((#[trigger] env[i][j]).1) by {
        assert(sv_wf(env[i][j].1));
    }
}

pub proof fn lemma_frame_get_wf(f: SpecFrame, name: Seq<char>)
    requires
        frame_wf(f),
    ensures
        frame_get(f, name) matches Some(v) ==> sv_wf(v),
    decreases f.len(),
{
    if f.len() > 0 && !(f[0].0 == name) {
        let tail = f.subrange(1, f.len() as int);
        assert forall|j: int| 0 <= j < tail.len() implies sv_wf((#[trigger] tail[j]).1) by {
            assert(tail[j] == f[j + 1]);
        }
        lemma_frame_get_wf(tail, name);
    }
}

pub proof fn lemma_env_get_wf(env: Seq<SpecFrame>, name: Seq<char>)
    requires
        env_wf(env),
    ensures
        env_get(env, name) matches Some(v) ==> sv_wf(v),
    decreases env.len(),
{
    if env.len() > 0 {
        lemma_env_wf_frame(env, env.len() - 1);
        assert(env.last() == env[env.len() - 1]);
        lemma_frame_get_wf(env.last(), name);
        assert forall|i: int, j: int|
            0 <= i < env.drop_last().len() && 0 <= j < env.drop_last()[i].len() implies sv_wf(
            (#[trigger] env.drop_last()[i][j]).1,
        ) by {
            assert(env.drop_last()[i] == env[i]);
            assert(sv_wf(env[i][j].1));
        }
        lemma_env_get_wf(env.drop_last(), name);
    }
}

pub proof fn lemma_frame_set_wf(f: SpecFrame, name: Seq<char>, v: SpecVal)
    requires
        frame_wf(f),
        sv_wf(v),
    ensures
        frame_wf(frame_set(f, name, v)),
    decreases f.len(),
{
    if f.len() == 0 {
    } else if f[0].0 == name {
        let r = frame_set(f, name, v);
        assert forall|j: int| 0 <= j < r.len() implies sv_wf((#[trigger] r[j]).1) by {
            if j > 0 {
                assert(r[j] == f.subrange(1, f.len() as int)[j - 1]);
                assert(sv_wf(f[j].1));
            }
        }
    } else {
        let tail = f.subrange(1, f.len() as int);
        assert forall|j: int| 0 <= j < tail.len() implies sv_wf((#[trigger] tail[j]).1) by {
            assert(tail[j] == f[j + 1]);
        }
        lemma_frame_set_wf(tail, name, v);
        let r = frame_set(f, name, v);
        assert forall|j: int| 0 <= j < r.len() implies sv_wf((#[trigger] r[j]).1) by {
            if j > 0 {
                assert(r[j] == frame_set(tail, name, v)[j - 1]);
            } else {
                assert(r[0] == f[0]);
            }
        }
    }
}

pub proof fn lemma_env_set_wf(env: Seq<SpecFrame>, name: Seq<char>, v: SpecVal)
    requires
        env_wf(env),
        sv_wf(v),
        env.len() >= 1,
    ensures
        env_wf(env_set(env, name, v)),
        env_set(env, name, v).len() == env.len(),
{
    lemma_env_wf_frame(env, env.len() - 1);
    assert(env.last() == env[env.len() - 1]);
    lemma_frame_set_wf(env.last(), name, v);
    let r = env_set(env, name, v);
    assert forall|i: int, j: int| 0 <= i < r.len() && 0 <= j < r[i].len() implies sv_wf(
        (#[trigger] r[i][j]).1,
    ) by {
        if i < env.len() - 1 {
            assert(r[i] == env.drop_last()[i]);
            assert(env.drop_last()[i] == env[i]);
            assert(sv_wf(env[i][j].1));
        } else {
            assert(r[i] == frame_set(env.last(), name, v));
        }
    }
}

pub proof fn lemma_env_wf_push(env: Seq<SpecFrame>, f: SpecFrame)
    requires
        env_wf(env),
        frame_wf(f),
    ensures
        env_wf(env.push(f)),
{
    let r = env.push(f);
    assert forall|i: int, j: int| 0 <= i < r.len() && 0 <= j < r[i].len() implies sv_wf(
        (#[trigger] r[i][j]).1,
    ) by {
        if i < env.len() {
            assert(r[i] == env[i]);
            assert(sv_wf(env[i][j].1));
        } else {
            assert(r[i] == f);
        }
    }
}

pub proof fn lemma_env_wf_drop(env: Seq<SpecFrame>)
    requires
        env_wf(env),
        env.len() >= 1,
    ensures
        env_wf(env.drop_last()),
{
    let r = env.drop_last();
    assert forall|i: int, j: int| 0 <= i < r.len() && 0 <= j < r[i].len() implies sv_wf(
        (#[trigger] r[i][j]).1,
    ) by {
        assert(r[i] == env[i]);
        assert(sv_wf(env[i][j].1));
    }
}

} // verus!
