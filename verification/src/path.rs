//! Asset paths: `/`-delimited addresses of nodes in the remote
//! hierarchy, held as their ordered segments.

use vstd::prelude::*;
use vstd::string::StrSliceExecFns;

use crate::text::str_eq;

verus! {

/// Characters that may stand inside a path segment: `/` is the
/// separator, and the quote, backslash and control characters could not
/// be carried verbatim by the request frame.
pub open spec fn seg_char_ok(c: char) -> bool {
    c != '/' && c != '"' && c != '\\' && c as u32 >= 32
}

/// Every character of `s` may stand inside a path segment.
pub open spec fn name_ok(s: Seq<char>) -> bool {
    forall|i: int| 0 <= i < s.len() ==> seg_char_ok(#[trigger] s[i])
}

/// A well-formed segment: non-empty and made of acceptable characters.
pub open spec fn seg_ok(s: Seq<char>) -> bool {
    s.len() > 0 && name_ok(s)
}

/// A well-formed path: at least one segment, all of them well-formed.
pub open spec fn path_ok(p: Seq<Seq<char>>) -> bool {
    1 <= p.len() && forall|i: int| 0 <= i < p.len() ==> seg_ok(#[trigger] p[i])
}

/// The address of a node in the remote asset hierarchy.
#[derive(Debug, Clone, PartialEq, Eq)]
pub struct AssetPath {
    segments: Vec<String>,
}

impl View for AssetPath {
    type V = Seq<Seq<char>>;

    closed spec fn view(&self) -> Seq<Seq<char>> {
        self.segments.deep_view()
    }
}

/// Every character of `s` may stand inside a path segment.
pub fn name_check(s: &str) -> (r: bool)
    ensures
        r == name_ok(s@),
{
    let n: usize = s.unicode_len();
    let mut i: usize = 0;
    while i < n
        invariant
            i <= n,
            n == s@.len(),
            forall|j: int| 0 <= j < i ==> seg_char_ok(#[trigger] s@[j]),
        decreases n - i,
    {
        let c = s.get_char(i);
        if c == '/' || c == '"' || c == '\\' || (c as u32) < 32 {
            return false;
        }
        i += 1;
    }
    true
}

/// `s` is a well-formed path segment.
pub fn seg_check(s: &str) -> (r: bool)
    ensures
        r == seg_ok(s@),
{
    if s.unicode_len() == 0 {
        return false;
    }
    name_check(s)
}

impl AssetPath {
    /// The path is well-formed: its view satisfies [`path_ok`].
    pub open spec fn wf(&self) -> bool {
        path_ok(self@)
    }

    /// Builds a path from its segments; refused unless every segment is
    /// well-formed and there is at least one.
    pub fn from_segments(segments: Vec<String>) -> (r: Option<AssetPath>)
        ensures
            match r {
                Some(p) => p@ == segments.deep_view() && p.wf(),
                None => !path_ok(segments.deep_view()),
            },
    {
        let n: usize = segments.len();
        if n == 0 {
            return None;
        }
        let mut i: usize = 0;
        while i < n
            invariant
                i <= n,
                n == segments@.len(),
                forall|j: int| 0 <= j < i ==> seg_ok(#[trigger] segments.deep_view()[j]),
            decreases n - i,
        {
            proof {
                assert(segments.deep_view()[i as int] == segments@[i as int]@);
            }
            if !seg_check(segments[i].as_str()) {
                return None;
            }
            i += 1;
        }
        Some(AssetPath { segments })
    }

    /// The segments of this path, in order.
    pub fn segments(&self) -> (r: &Vec<String>)
        ensures
            r.deep_view() == self@,
    {
        &self.segments
    }

    /// How many segments this path has.
    pub fn len(&self) -> (r: usize)
        ensures
            r == self@.len(),
    {
        self.segments.len()
    }

    /// The segment at position `i`.
    pub fn segment(&self, i: usize) -> (r: &String)
        requires
            i < self@.len(),
        ensures
            r@ == self@[i as int],
    {
        proof {
            assert(self.segments.deep_view()[i as int] == self.segments@[i as int]@);
        }
        &self.segments[i]
    }

    /// Builds a path whose well-formedness is already established.
    pub(crate) fn from_parts(segments: Vec<String>) -> (r: AssetPath)
        requires
            path_ok(segments.deep_view()),
        ensures
            r.wf(),
            r@ == segments.deep_view(),
    {
        AssetPath { segments }
    }

    /// A fresh path with the same segments.
    pub fn duplicate(&self) -> (r: AssetPath)
        ensures
            r@ == self@,
    {
        let n: usize = self.segments.len();
        let mut segs: Vec<String> = Vec::new();
        let mut i: usize = 0;
        while i < n
            invariant
                i <= n,
                n == self.segments@.len(),
                segs@.len() == i,
                forall|j: int| 0 <= j < i ==> segs@[j]@ == self.segments@[j]@,
            decreases n - i,
        {
            segs.push(self.segments[i].clone());
            i += 1;
        }
        proof {
            assert(segs.deep_view() =~= self.segments.deep_view());
        }
        AssetPath { segments: segs }
    }

    /// Segment-for-segment equality of two paths.
    pub fn path_eq(&self, other: &AssetPath) -> (r: bool)
        ensures
            r == (self@ == other@),
    {
        let n: usize = self.segments.len();
        proof {
            assert(self@.len() == self.segments@.len());
            assert(other@.len() == other.segments@.len());
        }
        if n != other.segments.len() {
            return false;
        }
        let mut i: usize = 0;
        while i < n
            invariant
                i <= n,
                n == self.segments@.len(),
                n == other.segments@.len(),
                forall|j: int| 0 <= j < i ==> self@[j] == other@[j],
        decreases n - i,
        {
            proof {
                assert(self@[i as int] == self.segments@[i as int]@);
                assert(other@[i as int] == other.segments@[i as int]@);
            }
            if !str_eq(self.segments[i].as_str(), other.segments[i].as_str()) {
                return false;
            }
            i += 1;
        }
        proof {
            assert(self@ =~= other@);
        }
        true
    }
}

/// The address of a background image asset: `Map.nx/Back/<name>.img`.
pub open spec fn back_path_spec(name: Seq<char>) -> Seq<Seq<char>> {
    seq!["Map.nx"@, "Back"@, name + ".img"@]
}

/// The address of an object image asset: `Map.nx/Obj/<name>.img`.
pub open spec fn obj_path_spec(name: Seq<char>) -> Seq<Seq<char>> {
    seq!["Map.nx"@, "Obj"@, name + ".img"@]
}

/// The address of a tile-set image asset: `Map.nx/Tile/<name>.img`.
pub open spec fn tile_path_spec(name: Seq<char>) -> Seq<Seq<char>> {
    seq!["Map.nx"@, "Tile"@, name + ".img"@]
}

/// The address of a background-music asset: `Sound.nx/<folder>.img/<file>`.
pub open spec fn bgm_path_spec(folder: Seq<char>, file: Seq<char>) -> Seq<Seq<char>> {
    seq!["Sound.nx"@, folder + ".img"@, file]
}

/// Builds `<root>/<kind>/<name>.img`.
fn dep_path(root: &str, kind: &str, name: &str) -> (r: AssetPath)
    requires
        seg_ok(root@),
        seg_ok(kind@),
        name_ok(name@),
    ensures
        r.wf(),
        r@ == seq![root@, kind@, name@ + ".img"@],
{
    let mut file: String = name.to_owned();
    file.append(".img");
    let mut segments: Vec<String> = Vec::new();
    segments.push(root.to_owned());
    segments.push(kind.to_owned());
    segments.push(file);
    proof {
        reveal_strlit(".img");
        assert(seg_ok(name@ + ".img"@)) by {
            assert forall|i: int| 0 <= i < (name@ + ".img"@).len() implies seg_char_ok(
                #[trigger] (name@ + ".img"@)[i],
            ) by {
                if i < name@.len() {
                    assert((name@ + ".img"@)[i] == name@[i]);
                } else {
                    assert((name@ + ".img"@)[i] == ".img"@[i - name@.len()]);
                }
            }
        }
        assert(segments.deep_view() =~= seq![root@, kind@, name@ + ".img"@]);
    }
    AssetPath::from_parts(segments)
}

/// The path of the background image named by a `bS` entry.
pub fn back_path(name: &str) -> (r: AssetPath)
    requires
        name_ok(name@),
    ensures
        r.wf(),
        r@ == back_path_spec(name@),
{
    proof {
        reveal_strlit("Map.nx");
        reveal_strlit("Back");
    }
    dep_path("Map.nx", "Back", name)
}

/// The path of the object image named by an `oS` entry.
pub fn obj_path(name: &str) -> (r: AssetPath)
    requires
        name_ok(name@),
    ensures
        r.wf(),
        r@ == obj_path_spec(name@),
{
    proof {
        reveal_strlit("Map.nx");
        reveal_strlit("Obj");
    }
    dep_path("Map.nx", "Obj", name)
}

/// The path of the tile-set image named by a `tS` entry.
pub fn tile_path(name: &str) -> (r: AssetPath)
    requires
        name_ok(name@),
    ensures
        r.wf(),
        r@ == tile_path_spec(name@),
{
    proof {
        reveal_strlit("Map.nx");
        reveal_strlit("Tile");
    }
    dep_path("Map.nx", "Tile", name)
}

/// The address of a map asset: `Map.nx/Map/Map<first digit>/<id>.img`,
/// where the map's identifier is filed under a directory named by its
/// first character.
pub open spec fn map_path_spec(map_id: Seq<char>) -> Seq<Seq<char>> {
    seq!["Map.nx"@, "Map"@, "Map"@ + seq![map_id[0]], map_id + ".img"@]
}

/// The path of the map asset with the given identifier.
pub fn map_path(map_id: &str) -> (r: AssetPath)
    requires
        map_id@.len() > 0,
        name_ok(map_id@),
    ensures
        r.wf(),
        r@ == map_path_spec(map_id@),
{
    let mut shelf: String = "Map".to_owned();
    shelf.append(map_id.substring_char(0, 1));
    let mut file: String = map_id.to_owned();
    file.append(".img");
    let mut segments: Vec<String> = Vec::new();
    segments.push("Map.nx".to_owned());
    segments.push("Map".to_owned());
    segments.push(shelf);
    segments.push(file);
    proof {
        reveal_strlit("Map.nx");
        reveal_strlit("Map");
        reveal_strlit(".img");
        assert(map_id@.subrange(0, 1) =~= seq![map_id@[0]]);
        assert(seg_ok("Map"@ + seq![map_id@[0]])) by {
            let s = "Map"@ + seq![map_id@[0]];
            assert forall|i: int| 0 <= i < s.len() implies seg_char_ok(#[trigger] s[i]) by {
                if i < 3 {
                    assert(s[i] == "Map"@[i]);
                } else {
                    assert(s[i] == map_id@[0]);
                }
            }
        }
        assert(seg_ok(map_id@ + ".img"@)) by {
            assert forall|i: int| 0 <= i < (map_id@ + ".img"@).len() implies seg_char_ok(
                #[trigger] (map_id@ + ".img"@)[i],
            ) by {
                if i < map_id@.len() {
                    assert((map_id@ + ".img"@)[i] == map_id@[i]);
                } else {
                    assert((map_id@ + ".img"@)[i] == ".img"@[i - map_id@.len()]);
                }
            }
        }
        assert(segments.deep_view() =~= map_path_spec(map_id@));
    }
    AssetPath::from_parts(segments)
}

/// The path of the background-music asset named by a `bgm` entry of the
/// shape `<folder>/<file>`.
pub fn bgm_path(folder: &str, file: &str) -> (r: AssetPath)
    requires
        name_ok(folder@),
        seg_ok(file@),
    ensures
        r.wf(),
        r@ == bgm_path_spec(folder@, file@),
{
    let mut mid: String = folder.to_owned();
    mid.append(".img");
    let mut segments: Vec<String> = Vec::new();
    segments.push("Sound.nx".to_owned());
    segments.push(mid);
    segments.push(file.to_owned());
    proof {
        reveal_strlit("Sound.nx");
        reveal_strlit(".img");
        assert(seg_ok(folder@ + ".img"@)) by {
            assert forall|i: int| 0 <= i < (folder@ + ".img"@).len() implies seg_char_ok(
                #[trigger] (folder@ + ".img"@)[i],
            ) by {
                if i < folder@.len() {
                    assert((folder@ + ".img"@)[i] == folder@[i]);
                } else {
                    assert((folder@ + ".img"@)[i] == ".img"@[i - folder@.len()]);
                }
            }
        }
        assert(segments.deep_view() =~= bgm_path_spec(folder@, file@));
    }
    AssetPath::from_parts(segments)
}

} // verus!
