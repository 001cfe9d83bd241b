//! How the player looks at the world, and what the screen says of it.

use crate::text;
use crate::types::BlockPos;
use vstd::prelude::*;
use vstd::string::*;

verus! {

/// Through the player's eyes or from behind.
#[derive(Debug, Clone, Copy, PartialEq, Eq, Structural)]
pub enum ViewMode {
    FirstPerson,
    ThirdPerson,
}

impl Default for ViewMode {
    /// Through the player's eyes.
    fn default() -> (r: Self)
        ensures
            r == ViewMode::FirstPerson,
    {
        ViewMode::FirstPerson
    }
}

impl ViewMode {
    /// The other mode.
    pub fn toggled(self) -> (r: Self)
        ensures
            r == match self {
                ViewMode::FirstPerson => ViewMode::ThirdPerson,
                ViewMode::ThirdPerson => ViewMode::FirstPerson,
            },
    {
        match self {
            ViewMode::FirstPerson => ViewMode::ThirdPerson,
            ViewMode::ThirdPerson => ViewMode::FirstPerson,
        }
    }

    /// Whether the player is seen.
    pub fn shows_player(self) -> (r: bool)
        ensures
            r == (self == ViewMode::ThirdPerson),
    {
        match self {
            ViewMode::FirstPerson => false,
            ViewMode::ThirdPerson => true,
        }
    }
}

/// What the screen says of the block that the player looks at.
pub open spec fn spec_target(hit: Option<BlockPos>) -> Seq<char> {
    match hit {
        Some(p) => "Target: ("@ + text::decimal_signed(p.x as int) + ", "@ + text::decimal_signed(
            p.y as int,
        ) + ", "@ + text::decimal_signed(p.z as int) + ")"@,
        None => "Target: --"@,
    }
}

/// What the screen says of the block that the player looks at.
pub fn target_text(hit: Option<BlockPos>) -> (r: String)
    ensures
        r@ == spec_target(hit),
{
    let mut out: String = String::new();
    match hit {
        Some(p) => {
            out.append("Target: (");
            text::push_signed(&mut out, p.x as i64);
            out.append(", ");
            text::push_signed(&mut out, p.y as i64);
            out.append(", ");
            text::push_signed(&mut out, p.z as i64);
            out.append(")");
        },
        None => {
            out.append("Target: --");
        },
    }
    assert(out@ =~= spec_target(hit));
    out
}

/// A label and a number behind it.
pub fn label_number(label: &str, n: u64) -> (r: String)
    ensures
        r@ == label@ + text::decimal(n as nat),
{
    let mut out: String = String::new();
    out.append(label);
    text::push_decimal(&mut out, n);
    assert(out@ =~= label@ + text::decimal(n as nat));
    out
}

/// Whether the window holds the cursor.
#[derive(Debug, Clone, Copy, PartialEq, Eq, Structural)]
pub enum CursorGrab {
    Free,
    Confined,
    Locked,
}

impl CursorGrab {
    /// What the cursor becomes: free if it was locked, else locked.
    pub fn toggled(self) -> (r: Self)
        ensures
            r == (if self == CursorGrab::Locked {
                CursorGrab::Free
            } else {
                CursorGrab::Locked
            }),
    {
        match self {
            CursorGrab::Locked => CursorGrab::Free,
            _ => CursorGrab::Locked,
        }
    }

    /// Whether the cursor is seen.
    pub fn is_visible(self) -> (r: bool)
        ensures
            r == (self != CursorGrab::Locked),
    {
        match self {
            CursorGrab::Locked => false,
            _ => true,
        }
    }
}

/// How many triangles a mesh has: a third of its indices, or of its vertices if
/// it has no indices.
pub fn mesh_triangles(indices: Option<u32>, vertices: u32) -> (r: u32)
    ensures
        r == (match indices {
            Some(n) => n,
            None => vertices,
        }) / 3,
{
    match indices {
        Some(n) => n / 3,
        None => vertices / 3,
    }
}

/// The screen names x, y and z of the block that the player looks at, in this order: x from
/// the opening bracket on, y after it, and z up to the closing bracket.
pub proof fn law_target_names_coordinates(p: BlockPos)
    ensures
        ({
            let s = spec_target(Some(p));
            let x = text::decimal_signed(p.x as int);
            let y = text::decimal_signed(p.y as int);
            let z = text::decimal_signed(p.z as int);
            let a = 9 + x.len() as int;
            let b = a + 2 + y.len() as int;
            &&& s[8] == '('
            &&& s.subrange(9, a) == x
            &&& s[a] == ','
            &&& s.subrange(a + 2, b) == y
            &&& s[b] == ','
            &&& s.subrange(b + 2, s.len() - 1) == z
            &&& s.last() == ')'
        }),
{
    reveal_strlit("Target: (");
    reveal_strlit(", ");
    reveal_strlit(")");
    let s = spec_target(Some(p));
    let x = text::decimal_signed(p.x as int);
    let y = text::decimal_signed(p.y as int);
    let z = text::decimal_signed(p.z as int);
    let a = 9 + x.len() as int;
    let b = a + 2 + y.len() as int;
    assert("Target: ("@.len() == 9 && "Target: ("@[8] == '(');
    assert(", "@.len() == 2 && ", "@[0] == ',');
    assert(")"@.len() == 1 && ")"@[0] == ')');
    assert(s.subrange(9, a) =~= x);
    assert(s.subrange(a + 2, b) =~= y);
    assert(s.subrange(b + 2, s.len() - 1) =~= z);
}

} // verus!
