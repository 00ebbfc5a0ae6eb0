//! What a tile does to a beam that enters it.
use vstd::prelude::*;
use crate::grid::{BeamError, Dir};

verus! {

/// The five symbols a grid cell may hold.
pub open spec fn is_tile(t: char) -> bool {
    t == '.' || t == '|' || t == '-' || t == '/' || t == '\\'
}

/// Reflection on `/`.
pub open spec fn slash(d: Dir) -> Dir {
    match d {
        Dir::Up => Dir::Right,
        Dir::Right => Dir::Up,
        Dir::Down => Dir::Left,
        Dir::Left => Dir::Down,
    }
}

/// Reflection on `\`.
pub open spec fn backslash(d: Dir) -> Dir {
    match d {
        Dir::Up => Dir::Left,
        Dir::Left => Dir::Up,
        Dir::Down => Dir::Right,
        Dir::Right => Dir::Down,
    }
}

/// Whether a beam travelling `d` into tile `t` leaves it travelling `o`.
/// No beam leaves a cell that holds an unknown symbol.
pub open spec fn emits(t: char, d: Dir, o: Dir) -> bool {
    if t == '|' && d.is_horizontal() {
        o.is_vertical()
    } else if t == '-' && d.is_vertical() {
        o.is_horizontal()
    } else if t == '.' || t == '|' || t == '-' {
        o == d
    } else if t == '/' {
        o == slash(d)
    } else if t == '\\' {
        o == backslash(d)
    } else {
        false
    }
}

/// The outgoing directions in the order they are followed: `Up` before `Down`, `Left`
/// before `Right`.
pub open spec fn rule_spec(t: char, d: Dir) -> Option<(Dir, Option<Dir>)> {
    if t == '|' && d.is_horizontal() {
        Some((Dir::Up, Some(Dir::Down)))
    } else if t == '-' && d.is_vertical() {
        Some((Dir::Left, Some(Dir::Right)))
    } else if t == '.' || t == '|' || t == '-' {
        Some((d, None))
    } else if t == '/' {
        Some((slash(d), None))
    } else if t == '\\' {
        Some((backslash(d), None))
    } else {
        None
    }
}

/// The outgoing directions of a beam travelling `d` into tile `t`: one, or two for a
/// splitter met side-on.
pub fn tile_rule(t: char, d: Dir) -> (r: Result<(Dir, Option<Dir>), BeamError>)
    ensures
        r is Ok <==> is_tile(t),
        r matches Err(e) ==> e == BeamError::InvalidTile,
        r matches Ok(v) ==> rule_spec(t, d) == Some(v),
        r matches Ok((a, b)) ==> forall|o: Dir| emits(t, d, o) <==> (o == a || b == Some(o)),
{
    if t == '|' && d.horizontal() {
        Ok((Dir::Up, Some(Dir::Down)))
    } else if t == '-' && d.vertical() {
        Ok((Dir::Left, Some(Dir::Right)))
    } else if t == '.' || t == '|' || t == '-' {
        Ok((d, None))
    } else if t == '/' || t == '\\' {
        let mut o = match d {
            Dir::Up => Dir::Right,
            Dir::Left => Dir::Down,
            Dir::Down => Dir::Left,
            Dir::Right => Dir::Up,
        };
        if t == '\\' {
            o = o.opposite();
        }
        Ok((o, None))
    } else {
        Err(BeamError::InvalidTile)
    }
}

/// The two mirrors are each other's image: whatever `/` sends one way, `\` sends the
/// opposite way; and a mirror's reflection is symmetric, so a beam that leaves
/// travelling `o` after entering travelling `d` would, entering travelling `o`, leave
/// travelling `d`.
pub proof fn lemma_mirror_symmetry(d: Dir, o: Dir)
    ensures
        emits('/', d, o) <==> emits('\\', d, o.opposite_spec()),
        emits('/', d, o) <==> emits('/', o, d),
        emits('\\', d, o) <==> emits('\\', o, d),
        emits('/', d, o) <==> emits('\\', d.opposite_spec(), o),
{
}

} // verus!
