//! An ordered sequence of joints with a fixed distance attached to each
//! link. Built once, then mutated in place by exactly one solver call per
//! frame; never resized or reordered.

use crate::joint::{GJoint, Joint, MAX_LINK, joint_ok};
use crate::norm::close_to_length;
use crate::vec2::{gdist_sq, in_range};
use vstd::prelude::*;

verus! {

/// Largest number of joints a chain may hold.
pub const MAX_JOINTS: usize = 4096;

/// Largest coordinate magnitude of a chain position the solvers accept.
pub const POS_LIMIT: i64 = 0x100000000000;

/// Ghost model of a chain.
#[verifier::ext_equal]
pub ghost struct GChain {
    pub joints: Seq<GJoint>,
    pub link: Seq<int>,
}

/// Executable chain. `link_distance[i]`, for `i >= 1`, is the required
/// distance between joint `i - 1` and joint `i`; `link_distance[0]` is 0,
/// the head's distance to whatever it tracks.
pub struct Chain {
    pub joints: Vec<Joint>,
    pub link_distance: Vec<i64>,
}

impl View for Chain {
    type V = GChain;

    open spec fn view(&self) -> GChain {
        GChain {
            joints: self.joints@.map_values(|j: Joint| j@),
            link: self.link_distance@.map_values(|d: i64| d as int),
        }
    }
}

/// Structural well-formedness: one distance per joint, at least one joint,
/// no distance owed by the head, all distances and joints in range.
pub open spec fn wf(c: GChain) -> bool {
    &&& c.joints.len() == c.link.len()
    &&& 1 <= c.joints.len() <= MAX_JOINTS as int
    &&& c.link[0] == 0
    &&& forall|i: int| 0 <= i < c.link.len() ==> 0 <= #[trigger] c.link[i] <= MAX_LINK as int
    &&& forall|i: int| 0 <= i < c.joints.len() ==> joint_ok(#[trigger] c.joints[i])
}

/// Every joint position lies within `b` in both coordinates.
pub open spec fn positions_within(c: GChain, b: int) -> bool {
    forall|i: int| 0 <= i < c.joints.len() ==> in_range(#[trigger] c.joints[i].pos, b)
}

/// Every link holds its distance up to the rounding band: the defining
/// invariant both solvers re-establish on every call.
pub open spec fn links_close(c: GChain) -> bool {
    forall|i: int|
        1 <= i < c.joints.len() ==> close_to_length(
            #[trigger] gdist_sq(c.joints[i].pos, c.joints[i - 1].pos),
            c.link[i],
        )
}

impl Chain {
    /// Build a chain from joints and link distances. Returns `None` when
    /// the inputs do not form a well-formed chain.
    pub fn new(joints: Vec<Joint>, link_distance: Vec<i64>) -> (r: Option<Chain>)
        ensures
            match r {
                Some(c) => c@ == (GChain {
                    joints: joints@.map_values(|j: Joint| j@),
                    link: link_distance@.map_values(|d: i64| d as int),
                }) && wf(c@),
                None => !wf(
                    GChain {
                        joints: joints@.map_values(|j: Joint| j@),
                        link: link_distance@.map_values(|d: i64| d as int),
                    },
                ),
            },
    {
        let ghost g = GChain {
            joints: joints@.map_values(|j: Joint| j@),
            link: link_distance@.map_values(|d: i64| d as int),
        };
        if joints.len() != link_distance.len() {
            return None;
        }
        if joints.len() < 1 || joints.len() > MAX_JOINTS {
            return None;
        }
        if link_distance[0] != 0 {
            return None;
        }
        let n = joints.len();
        let mut i: usize = 0;
        while i < n
            invariant
                n == joints.len() == link_distance.len(),
                g == (GChain {
                    joints: joints@.map_values(|j: Joint| j@),
                    link: link_distance@.map_values(|d: i64| d as int),
                }),
                0 <= i <= n,
                forall|k: int| 0 <= k < i ==> 0 <= #[trigger] g.link[k] <= MAX_LINK as int,
                forall|k: int| 0 <= k < i ==> joint_ok(#[trigger] g.joints[k]),
            decreases n - i,
        {
            let d = link_distance[i];
            proof {
                assert(g.link[i as int] == link_distance@[i as int] as int);
                assert(g.joints[i as int] == joints@[i as int]@);
            }
            if d < 0 || d > MAX_LINK {
                return None;
            }
            let j = joints[i];
            if j.facing.x == 0 && j.facing.y == 0 {
                return None;
            }
            if j.facing.x < -4 * 1024 || j.facing.x > 4 * 1024 || j.facing.y < -4 * 1024
                || j.facing.y > 4 * 1024 {
                return None;
            }
            if j.size < 0 || j.size > MAX_LINK {
                return None;
            }
            i += 1;
        }
        Some(Chain { joints, link_distance })
    }

    /// Number of joints.
    pub fn len(&self) -> (r: usize)
        ensures
            r == self@.joints.len(),
    {
        self.joints.len()
    }

    /// The joint at index `i`.
    pub fn joint_at(&self, i: usize) -> (r: Joint)
        requires
            i < self@.joints.len(),
        ensures
            r@ == self@.joints[i as int],
    {
        self.joints[i]
    }

    /// The link distance at index `i`.
    pub fn link_at(&self, i: usize) -> (r: i64)
        requires
            i < self@.link.len(),
        ensures
            r as int == self@.link[i as int],
    {
        self.link_distance[i]
    }
}

} // verus!
