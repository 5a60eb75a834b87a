use vstd::prelude::*;
use vstd::view::View as _;

verus! {

/// The metric screens of the viewer, in tab order.
#[derive(Clone, Copy, PartialEq, Eq, Structural, Debug)]
pub enum View {
    Cpu,
    Memory,
    Disk,
    Network,
}

/// Number of screens in the tab order.
pub const VIEW_COUNT: usize = 4;

/// Position of a screen in the tab order.
pub open spec fn ordinal(v: View) -> nat {
    match v {
        View::Cpu => 0,
        View::Memory => 1,
        View::Disk => 2,
        View::Network => 3,
    }
}

/// The screen at a position of the tab order (positions are taken modulo the count).
pub open spec fn at_ordinal(i: nat) -> View {
    let k = i % 4;
    if k == 0 {
        View::Cpu
    } else if k == 1 {
        View::Memory
    } else if k == 2 {
        View::Disk
    } else {
        View::Network
    }
}

/// The title shown for a screen.
pub open spec fn title_of(v: View) -> Seq<char> {
    match v {
        View::Cpu => "CPU"@,
        View::Memory => "Memory"@,
        View::Disk => "Disk"@,
        View::Network => "Network"@,
    }
}

/// The screen after `v` in tab order, wrapping from the last to the first.
pub open spec fn next_of(v: View) -> View {
    at_ordinal(ordinal(v) + 1)
}

/// The screen before `v` in tab order, wrapping from the first to the last.
pub open spec fn prev_of(v: View) -> View {
    at_ordinal((ordinal(v) + VIEW_COUNT - 1) as nat)
}

impl View {
    fn position(self) -> (i: usize)
        ensures
            i == ordinal(self),
    {
        match self {
            View::Cpu => 0,
            View::Memory => 1,
            View::Disk => 2,
            View::Network => 3,
        }
    }

    fn from_position(i: usize) -> (v: View)
        requires
            i < VIEW_COUNT,
        ensures
            v == at_ordinal(i as nat),
            ordinal(v) == i,
    {
        if i == 0 {
            View::Cpu
        } else if i == 1 {
            View::Memory
        } else if i == 2 {
            View::Disk
        } else {
            View::Network
        }
    }

    /// The title of this screen.
    pub fn title(self) -> (t: &'static str)
        ensures
            t@ == title_of(self),
    {
        match self {
            View::Cpu => "CPU",
            View::Memory => "Memory",
            View::Disk => "Disk",
            View::Network => "Network",
        }
    }

    /// The next screen in tab order; the last wraps to the first.
    pub fn next(self) -> (v: View)
        ensures
            v == next_of(self),
            v == match self {
                View::Cpu => View::Memory,
                View::Memory => View::Disk,
                View::Disk => View::Network,
                View::Network => View::Cpu,
            },
    {
        let i = self.position();
        View::from_position((i + 1) % VIEW_COUNT)
    }

    /// The previous screen in tab order; the first wraps to the last.
    pub fn prev(self) -> (v: View)
        ensures
            v == prev_of(self),
            v == match self {
                View::Cpu => View::Network,
                View::Memory => View::Cpu,
                View::Disk => View::Memory,
                View::Network => View::Disk,
            },
    {
        let i = self.position();
        View::from_position((i + VIEW_COUNT - 1) % VIEW_COUNT)
    }
}

/// The screen reached from `v` by `k` steps forward in tab order.
pub open spec fn steps_forward(v: View, k: nat) -> View
    decreases k,
{
    if k == 0 {
        v
    } else {
        next_of(steps_forward(v, (k - 1) as nat))
    }
}

/// Every screen sits at the position its ordinal names.
pub proof fn lemma_ordinal_roundtrip(v: View)
    ensures
        ordinal(v) < VIEW_COUNT,
        at_ordinal(ordinal(v)) == v,
{
}

/// Going back one screen undoes going forward one screen, and the other way round.
pub proof fn lemma_prev_undoes_next(v: View)
    ensures
        prev_of(next_of(v)) == v,
        next_of(prev_of(v)) == v,
{
}

/// Taking `k` steps forward lands on the screen `k` positions further on,
/// counted modulo the number of screens.
pub proof fn lemma_steps_forward_position(v: View, k: nat)
    ensures
        steps_forward(v, k) == at_ordinal(ordinal(v) + k),
    decreases k,
{
    if k > 0 {
        lemma_steps_forward_position(v, (k - 1) as nat);
        let a = ordinal(v) + (k - 1) as nat;
        assert((a % 4 + 1) % 4 == (a + 1) % 4) by (nonlinear_arith);
    }
}

/// Stepping forward through the tabs visits every screen and returns to the
/// start exactly when the number of steps is a multiple of the screen count.
pub proof fn lemma_tab_cycle(v: View, k: nat)
    ensures
        steps_forward(v, k) == v <==> k % (VIEW_COUNT as nat) == 0,
        forall|w: View| #[trigger] ordinal(w) == ((ordinal(v) + k) % 4) ==> steps_forward(v, k) == w,
{
    lemma_steps_forward_position(v, k);
    let a = ordinal(v) + k;
    assert((a % 4 == ordinal(v)) <==> (k % 4 == 0)) by (nonlinear_arith)
        requires
            a == ordinal(v) + k,
            ordinal(v) < 4,
    ;
}

} // verus!
