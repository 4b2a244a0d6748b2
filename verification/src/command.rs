//! The arguments of the headless session's text commands: integers, cube
//! coordinates, slots, facings and resources, each read from one
//! whitespace-separated token. Names are matched ignoring ASCII case; a
//! token that does not read gives the message the session answers with.
use vstd::prelude::*;
use crate::decimal::{parse_i32, parse_usize, read_i32, read_usize};
use crate::resource::UniformResource;
use crate::sparse3d::{IVec3, Slot};
use crate::text::push_str;

verus! {

/// The code of `c` with an ASCII capital lowered.
pub open spec fn lower_code(c: char) -> u32 {
    if 'A' <= c <= 'Z' { (c as u32 + 32) as u32 } else { c as u32 }
}

/// `a` and `b` are the same text ignoring ASCII case.
pub open spec fn same_ignoring_case(a: Seq<char>, b: Seq<char>) -> bool {
    &&& a.len() == b.len()
    &&& forall|i: int| 0 <= i < a.len() ==> lower_code(#[trigger] a[i]) == lower_code(b[i])
}

fn lower(c: char) -> (n: u32)
    ensures
        n == lower_code(c),
{
    if 'A' <= c && c <= 'Z' { c as u32 + 32 } else { c as u32 }
}

/// Whether `a` and `b` are the same text ignoring ASCII case.
pub fn eq_ignore_case(a: &str, b: &str) -> (same: bool)
    ensures
        same == same_ignoring_case(a@, b@),
{
    let n = a.unicode_len();
    if n != b.unicode_len() {
        return false;
    }
    let mut i: usize = 0;
    while i < n
        invariant
            n == a@.len(),
            n == b@.len(),
            i <= n,
            forall|k: int| 0 <= k < i ==> lower_code(#[trigger] a@[k]) == lower_code(b@[k]),
        decreases n - i,
    {
        if lower(a.get_char(i)) != lower(b.get_char(i)) {
            return false;
        }
        i += 1;
    }
    true
}

fn chars_of(s: &str) -> (cs: Vec<char>)
    ensures
        cs@ == s@,
{
    let n = s.unicode_len();
    let mut cs: Vec<char> = Vec::new();
    let mut i: usize = 0;
    while i < n
        invariant
            n == s@.len(),
            i <= n,
            cs@ == s@.take(i as int),
        decreases n - i,
    {
        cs.push(s.get_char(i));
        proof {
            assert(s@.take(i + 1) =~= s@.take(i as int).push(s@[i as int]));
        }
        i += 1;
    }
    proof {
        assert(s@.take(n as int) =~= s@);
    }
    cs
}

fn message_about(head: &str, token: &str) -> (m: String)
    ensures
        m@ == head@ + token@,
{
    let mut m = String::new();
    push_str(&mut m, head);
    push_str(&mut m, token);
    m
}

fn message(head: &str, token: &str, tail: &str) -> (m: String)
    ensures
        m@ == head@ + token@ + tail@,
{
    let mut m = String::new();
    push_str(&mut m, head);
    push_str(&mut m, token);
    push_str(&mut m, tail);
    m
}

/// What a token that is not an integer is answered with.
pub open spec fn not_an_integer(s: Seq<char>) -> Seq<char> {
    "not an integer: "@ + s
}

/// Reads a signed integer (see `parse_i32`).
pub fn parse_int(s: &str) -> (r: Result<i32, String>)
    ensures
        match parse_i32(s@) {
            Some(v) => r == Ok::<i32, String>(v),
            None => r matches Err(m) && m@ == not_an_integer(s@),
        },
{
    match read_i32(chars_of(s).as_slice()) {
        Some(v) => Ok(v),
        None => Err(message_about("not an integer: ", s)),
    }
}

/// Reads an unsigned integer (see `parse_usize`).
pub fn parse_index(s: &str) -> (r: Result<usize, String>)
    ensures
        match parse_usize(s@) {
            Some(v) => r == Ok::<usize, String>(v),
            None => r matches Err(m) && m@ == not_an_integer(s@),
        },
{
    match read_usize(chars_of(s).as_slice()) {
        Some(v) => Ok(v),
        None => Err(message_about("not an integer: ", s)),
    }
}

/// Reads cube coordinates from the first three tokens, failing on the
/// first that is not an integer.
pub fn parse_ivec3(args: &[&str]) -> (r: Result<IVec3, String>)
    requires
        args@.len() >= 3,
    ensures
        match (parse_i32(args@[0]@), parse_i32(args@[1]@), parse_i32(args@[2]@)) {
            (Some(x), Some(y), Some(z)) => r == Ok::<IVec3, String>(IVec3 { x, y, z }),
            (None, _, _) => r matches Err(m) && m@ == not_an_integer(args@[0]@),
            (Some(_), None, _) => r matches Err(m) && m@ == not_an_integer(args@[1]@),
            (Some(_), Some(_), None) => r matches Err(m) && m@ == not_an_integer(args@[2]@),
        },
{
    let x = match parse_int(args[0]) {
        Ok(v) => v,
        Err(m) => return Err(m),
    };
    let y = match parse_int(args[1]) {
        Ok(v) => v,
        Err(m) => return Err(m),
    };
    let z = match parse_int(args[2]) {
        Ok(v) => v,
        Err(m) => return Err(m),
    };
    Ok(IVec3 { x, y, z })
}

/// The slot a token names: `room`, `floor`, `xwall` or `zwall`, in any
/// ASCII case.
pub open spec fn slot_named(s: Seq<char>) -> Option<Slot> {
    if same_ignoring_case(s, "room"@) {
        Some(Slot::Room)
    } else if same_ignoring_case(s, "floor"@) {
        Some(Slot::Floor)
    } else if same_ignoring_case(s, "xwall"@) {
        Some(Slot::XLoWall)
    } else if same_ignoring_case(s, "zwall"@) {
        Some(Slot::ZLoWall)
    } else {
        None
    }
}

/// Reads a slot (see `slot_named`).
pub fn parse_slot(s: &str) -> (r: Result<Slot, String>)
    ensures
        match slot_named(s@) {
            Some(slot) => r == Ok::<Slot, String>(slot),
            None => r matches Err(m) && m@ == "unknown slot: "@ + s@ + " (expected room|floor|xwall|zwall)"@,
        },
{
    if eq_ignore_case(s, "room") {
        Ok(Slot::Room)
    } else if eq_ignore_case(s, "floor") {
        Ok(Slot::Floor)
    } else if eq_ignore_case(s, "xwall") {
        Ok(Slot::XLoWall)
    } else if eq_ignore_case(s, "zwall") {
        Ok(Slot::ZLoWall)
    } else {
        Err(message("unknown slot: ", s, " (expected room|floor|xwall|zwall)"))
    }
}

/// The facing number a token names: `negx` or `0` is 0, `negz` or `1` is
/// 1, `posx` or `2` is 2, `posz` or `3` is 3, names in any ASCII case.
pub open spec fn facing_named(s: Seq<char>) -> Option<i32> {
    if same_ignoring_case(s, "negx"@) || same_ignoring_case(s, "0"@) {
        Some(0)
    } else if same_ignoring_case(s, "negz"@) || same_ignoring_case(s, "1"@) {
        Some(1)
    } else if same_ignoring_case(s, "posx"@) || same_ignoring_case(s, "2"@) {
        Some(2)
    } else if same_ignoring_case(s, "posz"@) || same_ignoring_case(s, "3"@) {
        Some(3)
    } else {
        None
    }
}

/// Reads a facing number (see `facing_named`).
pub fn parse_facing(s: &str) -> (r: Result<i32, String>)
    ensures
        match facing_named(s@) {
            Some(f) => r == Ok::<i32, String>(f),
            None => r matches Err(m) && m@ == "unknown facing: "@ + s@ + " (expected negx|negz|posx|posz or 0-3)"@,
        },
{
    if eq_ignore_case(s, "negx") || eq_ignore_case(s, "0") {
        Ok(0)
    } else if eq_ignore_case(s, "negz") || eq_ignore_case(s, "1") {
        Ok(1)
    } else if eq_ignore_case(s, "posx") || eq_ignore_case(s, "2") {
        Ok(2)
    } else if eq_ignore_case(s, "posz") || eq_ignore_case(s, "3") {
        Ok(3)
    } else {
        Err(message("unknown facing: ", s, " (expected negx|negz|posx|posz or 0-3)"))
    }
}

/// A resource's name in commands: its variant's name.
pub open spec fn resource_name(r: UniformResource) -> Seq<char> {
    match r {
        UniformResource::Potato => "Potato"@,
        UniformResource::Timber => "Timber"@,
        UniformResource::Straw => "Straw"@,
        UniformResource::Canvas => "Canvas"@,
        UniformResource::Fieldstone => "Fieldstone"@,
        UniformResource::Block => "Block"@,
        UniformResource::Lime => "Lime"@,
        UniformResource::Plank => "Plank"@,
    }
}

fn name_of(r: UniformResource) -> (s: &'static str)
    ensures
        s@ == resource_name(r),
{
    match r {
        UniformResource::Potato => "Potato",
        UniformResource::Timber => "Timber",
        UniformResource::Straw => "Straw",
        UniformResource::Canvas => "Canvas",
        UniformResource::Fieldstone => "Fieldstone",
        UniformResource::Block => "Block",
        UniformResource::Lime => "Lime",
        UniformResource::Plank => "Plank",
    }
}

/// The first resource, in declaration order, whose name is `s` ignoring
/// ASCII case, among the first `n`.
pub open spec fn resource_named(s: Seq<char>, n: int) -> Option<UniformResource>
    decreases n,
{
    if n <= 0 {
        None
    } else {
        match resource_named(s, n - 1) {
            Some(r) => Some(r),
            None => {
                let r = crate::resource::all_uniform_resources()[n - 1];
                if same_ignoring_case(resource_name(r), s) { Some(r) } else { None }
            },
        }
    }
}

proof fn lemma_resource_named_stable(s: Seq<char>, m: int, n: int)
    requires
        m <= n,
        resource_named(s, m) is Some,
    ensures
        resource_named(s, n) == resource_named(s, m),
    decreases n - m,
{
    if m < n {
        lemma_resource_named_stable(s, m, n - 1);
    }
}

/// Reads a resource by name, ignoring ASCII case (see `resource_named`).
pub fn parse_uniform_resource(s: &str) -> (r: Result<UniformResource, String>)
    ensures
        match resource_named(s@, 8) {
            Some(res) => r == Ok::<UniformResource, String>(res),
            None => r matches Err(m) && m@ == "unknown resource: "@ + s@,
        },
{
    let all = UniformResource::all();
    assert(all@.len() == 8);
    let mut k: usize = 0;
    while k < all.len()
        invariant
            all@ == crate::resource::all_uniform_resources(),
            k <= 8,
            resource_named(s@, k as int) is None,
        decreases 8 - k,
    {
        if eq_ignore_case(name_of(all[k]), s) {
            proof {
                lemma_resource_named_stable(s@, k + 1, 8);
            }
            return Ok(all[k]);
        }
        k += 1;
    }
    Err(message_about("unknown resource: ", s))
}


proof fn lemma_same_case_chain(a: Seq<char>, b: Seq<char>, c: Seq<char>)
    requires
        same_ignoring_case(a, b),
        same_ignoring_case(a, c),
    ensures
        same_ignoring_case(b, c),
{
    assert forall|i: int| 0 <= i < b.len() implies lower_code(#[trigger] b[i]) == lower_code(c[i]) by {
        assert(lower_code(a[i]) == lower_code(b[i]));
        assert(lower_code(a[i]) == lower_code(c[i]));
    }
}

/// A facing read as a digit is that number, and a facing read by name is
/// the same as its digit: `negx` is 0, `negz` 1, `posx` 2 and `posz` 3, in
/// any ASCII case; nothing else names a facing.
pub proof fn lemma_facing_names_match_digits(s: Seq<char>)
    ensures
        facing_named("0"@) == Some(0i32),
        facing_named("1"@) == Some(1i32),
        facing_named("2"@) == Some(2i32),
        facing_named("3"@) == Some(3i32),
        same_ignoring_case(s, "negx"@) ==> facing_named(s) == facing_named("0"@),
        same_ignoring_case(s, "negz"@) ==> facing_named(s) == facing_named("1"@),
        same_ignoring_case(s, "posx"@) ==> facing_named(s) == facing_named("2"@),
        same_ignoring_case(s, "posz"@) ==> facing_named(s) == facing_named("3"@),
        facing_named(s) is Some ==> s.len() == 1 || s.len() == 4,
{
    reveal_strlit("0");
    reveal_strlit("1");
    reveal_strlit("2");
    reveal_strlit("3");
    reveal_strlit("negx");
    reveal_strlit("negz");
    reveal_strlit("posx");
    reveal_strlit("posz");
    let names = seq!["negx"@, "negz"@, "posx"@, "posz"@];
    let digits = seq!["0"@, "1"@, "2"@, "3"@];
    // no two of the names or digits read alike
    assert(!same_ignoring_case("negx"@, "negz"@)) by { assert(lower_code("negx"@[3]) != lower_code("negz"@[3])); }
    assert(!same_ignoring_case("negx"@, "posx"@)) by { assert(lower_code("negx"@[0]) != lower_code("posx"@[0])); }
    assert(!same_ignoring_case("negx"@, "posz"@)) by { assert(lower_code("negx"@[0]) != lower_code("posz"@[0])); }
    assert(!same_ignoring_case("negz"@, "posx"@)) by { assert(lower_code("negz"@[0]) != lower_code("posx"@[0])); }
    assert(!same_ignoring_case("negz"@, "posz"@)) by { assert(lower_code("negz"@[0]) != lower_code("posz"@[0])); }
    assert(!same_ignoring_case("posx"@, "posz"@)) by { assert(lower_code("posx"@[3]) != lower_code("posz"@[3])); }
    assert(!same_ignoring_case("0"@, "1"@)) by { assert(lower_code("0"@[0]) != lower_code("1"@[0])); }
    assert(!same_ignoring_case("0"@, "2"@)) by { assert(lower_code("0"@[0]) != lower_code("2"@[0])); }
    assert(!same_ignoring_case("0"@, "3"@)) by { assert(lower_code("0"@[0]) != lower_code("3"@[0])); }
    assert(!same_ignoring_case("1"@, "2"@)) by { assert(lower_code("1"@[0]) != lower_code("2"@[0])); }
    assert(!same_ignoring_case("1"@, "3"@)) by { assert(lower_code("1"@[0]) != lower_code("3"@[0])); }
    assert(!same_ignoring_case("2"@, "3"@)) by { assert(lower_code("2"@[0]) != lower_code("3"@[0])); }
    assert(same_ignoring_case("0"@, "0"@));
    assert(same_ignoring_case("1"@, "1"@));
    assert(same_ignoring_case("2"@, "2"@));
    assert(same_ignoring_case("3"@, "3"@));
    if same_ignoring_case(s, "negx"@) {
        assert(!same_ignoring_case(s, "0"@));
    }
    if same_ignoring_case(s, "negz"@) {
        if same_ignoring_case(s, "negx"@) { lemma_same_case_chain(s, "negx"@, "negz"@); }
        assert(!same_ignoring_case(s, "0"@));
    }
    if same_ignoring_case(s, "posx"@) {
        if same_ignoring_case(s, "negx"@) { lemma_same_case_chain(s, "negx"@, "posx"@); }
        if same_ignoring_case(s, "negz"@) { lemma_same_case_chain(s, "negz"@, "posx"@); }
        assert(!same_ignoring_case(s, "0"@) && !same_ignoring_case(s, "1"@));
    }
    if same_ignoring_case(s, "posz"@) {
        if same_ignoring_case(s, "negx"@) { lemma_same_case_chain(s, "negx"@, "posz"@); }
        if same_ignoring_case(s, "negz"@) { lemma_same_case_chain(s, "negz"@, "posz"@); }
        if same_ignoring_case(s, "posx"@) { lemma_same_case_chain(s, "posx"@, "posz"@); }
        assert(!same_ignoring_case(s, "0"@) && !same_ignoring_case(s, "1"@) && !same_ignoring_case(s, "2"@));
    }
}

} // verus!
