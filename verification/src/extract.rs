//! Reading area records out of a stream of tree events.
//!
//! The stream is the flattened form of a tree: entering a node, leaving a
//! node, and a property of the node that is open. Every node met at the top
//! level whose name starts with `area@` yields one area; every other node
//! is passed over together with everything below it. Inside an area node
//! the properties set the fields of the area, and nested nodes are passed
//! over.

use vstd::prelude::*;
use vstd::string::*;
use crate::area::{blank_area, Area, AreaView};

verus! {

/// A property value after its type has been inferred.
#[derive(Debug, Clone)]
pub enum Scalar {
    /// The value decodes as text.
    Text(String),
    /// The value is an unsigned 32-bit integer.
    Word(u32),
    /// The value is of no type that an area uses.
    Unknown,
    /// The value is longer than the reader takes, so that nothing could be
    /// inferred from it.
    TooLong,
}

/// One unit of the tree stream.
#[derive(Debug, Clone)]
pub enum Event {
    /// A node with this name opens.
    StartNode { name: String },
    /// The innermost open node closes.
    EndNode,
    /// A property of the innermost open node.
    Property { name: String, value: Scalar },
}

/// Why a stream could not be read.
#[derive(Debug, PartialEq, Eq)]
pub enum ExtractError {
    /// The stream ends inside a node that is never closed.
    Malformed,
    /// A property of an area has a value that is longer than the reader
    /// takes.
    ValueTooLong,
}

/// `s` begins with `prefix`.
pub open spec fn has_prefix(s: Seq<char>, prefix: Seq<char>) -> bool {
    prefix.len() <= s.len() && s.subrange(0, prefix.len() as int) == prefix
}

/// The name prefix of the nodes that describe an area.
pub open spec fn area_prefix() -> Seq<char> {
    "area@"@
}

/// The area after a property `name` with value `value` has been applied:
/// a recognised name with a value of its type sets that field, anything
/// else leaves the area as it was.
pub open spec fn assigned(area: AreaView, name: Seq<char>, value: Scalar) -> AreaView {
    match value {
        Scalar::Text(t) => {
            if name == "description"@ {
                AreaView { description: t@, ..area }
            } else if name == "compatible"@ {
                AreaView { compatible: t@, ..area }
            } else if name == "file"@ {
                AreaView { file: Some(t@), ..area }
            } else {
                area
            }
        },
        Scalar::Word(w) => {
            if name == "offset"@ {
                AreaView { offset: Some(w), ..area }
            } else if name == "size"@ {
                AreaView { size: w, ..area }
            } else {
                area
            }
        },
        Scalar::Unknown => area,
        Scalar::TooLong => area,
    }
}

/// The position just behind the `EndNode` that closes the node open at
/// `pos` with `depth` further nodes open inside it, or `None` where the
/// stream ends first.
pub open spec fn skip_end(events: Seq<Event>, pos: int, depth: nat) -> Option<int>
    decreases events.len() - pos,
{
    if pos < 0 || pos >= events.len() {
        None
    } else {
        match events[pos] {
            Event::StartNode { .. } => skip_end(events, pos + 1, depth + 1),
            Event::EndNode => if depth == 0 {
                Some(pos + 1)
            } else {
                skip_end(events, pos + 1, (depth - 1) as nat)
            },
            Event::Property { .. } => skip_end(events, pos + 1, depth),
        }
    }
}

/// The walk through an area node whose body starts at `pos`: the area built
/// from `area` by the node's own properties, and the position behind the
/// node. Nodes nested in it are passed over. The walk fails at the first
/// property of the area whose value is too long, and where the stream ends
/// before the node, or a node nested in it, is closed.
pub open spec fn area_walk(events: Seq<Event>, pos: int, area: AreaView) -> Result<
    (AreaView, int),
    ExtractError,
>
    decreases events.len() - pos,
{
    if pos < 0 || pos >= events.len() {
        Err(ExtractError::Malformed)
    } else {
        match events[pos] {
            Event::StartNode { .. } => match skip_end(events, pos + 1, 0) {
                Some(next) => if pos < next <= events.len() {
                    area_walk(events, next, area)
                } else {
                    Err(ExtractError::Malformed)
                },
                None => Err(ExtractError::Malformed),
            },
            Event::EndNode => Ok((area, pos + 1)),
            Event::Property { name, value } => if value is TooLong {
                Err(ExtractError::ValueTooLong)
            } else {
                area_walk(events, pos + 1, assigned(area, name@, value))
            },
        }
    }
}

/// The areas of the stream from `pos` on, behind those already in `found`,
/// or the first failure on the way. With `inside` the walk is in a node of
/// its own: that node's end ends the walk, and a stream that ends before it
/// has failed. Without it the walk goes to the end of the stream, and node
/// ends at the top level are passed over.
pub open spec fn areas_walk(
    events: Seq<Event>,
    pos: int,
    found: Seq<AreaView>,
    inside: bool,
) -> Result<Seq<AreaView>, ExtractError>
    decreases events.len() - pos,
{
    if pos < 0 || pos >= events.len() {
        if inside {
            Err(ExtractError::Malformed)
        } else {
            Ok(found)
        }
    } else {
        match events[pos] {
            Event::StartNode { name } => if has_prefix(name@, area_prefix()) {
                match area_walk(events, pos + 1, blank_area()) {
                    Ok((area, next)) => if pos < next <= events.len() {
                        areas_walk(events, next, found.push(area), inside)
                    } else {
                        Err(ExtractError::Malformed)
                    },
                    Err(e) => Err(e),
                }
            } else {
                match skip_end(events, pos + 1, 0) {
                    Some(next) => if pos < next <= events.len() {
                        areas_walk(events, next, found, inside)
                    } else {
                        Err(ExtractError::Malformed)
                    },
                    None => Err(ExtractError::Malformed),
                }
            },
            Event::EndNode => if inside {
                Ok(found)
            } else {
                areas_walk(events, pos + 1, found, inside)
            },
            Event::Property { .. } => areas_walk(events, pos + 1, found, inside),
        }
    }
}

/// The areas that a stream of top-level events describes.
pub open spec fn areas_of(events: Seq<Event>) -> Result<Seq<AreaView>, ExtractError> {
    areas_walk(events, 0, Seq::empty(), false)
}

/// The areas of a whole tree: the stream opens with the root node, and the
/// areas are children of the root. A stream that does not open with a
/// node, or ends before the root is closed, has failed.
pub open spec fn tree_areas(events: Seq<Event>) -> Result<Seq<AreaView>, ExtractError> {
    if events.len() > 0 && events[0] is StartNode {
        areas_walk(events, 1, Seq::empty(), true)
    } else {
        Err(ExtractError::Malformed)
    }
}

/// What is made of a property value of which `read` bytes came out of a
/// reader that takes `capacity`: the inferred value, or `TooLong` where
/// more came than the reader takes.
pub open spec fn bounded(read: usize, capacity: usize, inferred: Scalar) -> Scalar {
    if read > capacity {
        Scalar::TooLong
    } else {
        inferred
    }
}

/// The views of a list of areas, in order.
pub open spec fn area_views(areas: Seq<Area>) -> Seq<AreaView> {
    areas.map_values(|a: Area| a@)
}

/// Passing over a node ends behind where it began, inside the stream.
pub proof fn lemma_skip_end_bounds(events: Seq<Event>, pos: int, depth: nat)
    requires
        0 <= pos,
    ensures
        skip_end(events, pos, depth) matches Some(next) ==> pos < next <= events.len(),
    decreases events.len() - pos,
{
    if pos < events.len() {
        match events[pos] {
            Event::StartNode { .. } => lemma_skip_end_bounds(events, pos + 1, depth + 1),
            Event::EndNode => if depth > 0 {
                lemma_skip_end_bounds(events, pos + 1, (depth - 1) as nat)
            },
            Event::Property { .. } => lemma_skip_end_bounds(events, pos + 1, depth),
        }
    }
}

/// An area node ends behind where its body began, inside the stream.
pub proof fn lemma_area_walk_bounds(events: Seq<Event>, pos: int, area: AreaView)
    requires
        0 <= pos <= events.len(),
    ensures
        area_walk(events, pos, area) matches Ok((_, next)) ==> pos < next <= events.len(),
    decreases events.len() - pos,
{
    if pos < events.len() {
        match events[pos] {
            Event::StartNode { .. } => {
                lemma_skip_end_bounds(events, pos + 1, 0);
                if let Some(next) = skip_end(events, pos + 1, 0) {
                    lemma_area_walk_bounds(events, next, area);
                }
            },
            Event::EndNode => {},
            Event::Property { name, value } => if !(value is TooLong) {
                lemma_area_walk_bounds(events, pos + 1, assigned(area, name@, value))
            },
        }
    }
}

/// A property whose name is none of the five that an area knows changes
/// nothing, whatever its value.
pub proof fn lemma_unknown_property_ignored(area: AreaView, name: Seq<char>, value: Scalar)
    requires
        name != "description"@,
        name != "compatible"@,
        name != "offset"@,
        name != "size"@,
        name != "file"@,
    ensures
        assigned(area, name, value) == area,
{
}

/// The walk through an area node that starts at `pos` comes by `at`, at the
/// area's own level: before the node's end, and in no node nested in it.
pub open spec fn on_level(events: Seq<Event>, pos: int, at: int) -> bool
    decreases events.len() - pos,
{
    if pos == at {
        0 <= at <= events.len()
    } else if pos < 0 || pos > at || pos >= events.len() {
        false
    } else {
        match events[pos] {
            Event::StartNode { .. } => match skip_end(events, pos + 1, 0) {
                Some(next) => if pos < next <= at && next <= events.len() {
                    on_level(events, next, at)
                } else {
                    false
                },
                None => false,
            },
            Event::EndNode => false,
            Event::Property { value, .. } => !(value is TooLong) && on_level(events, pos + 1, at),
        }
    }
}

/// A place that the walk comes by lies in the stream, not before the start
/// of the walk.
pub proof fn lemma_on_level_bounds(events: Seq<Event>, pos: int, at: int)
    requires
        on_level(events, pos, at),
    ensures
        0 <= pos <= at <= events.len(),
    decreases events.len() - pos,
{
    if pos != at {
        match events[pos] {
            Event::StartNode { .. } => lemma_on_level_bounds(
                events,
                skip_end(events, pos + 1, 0)->Some_0,
                at,
            ),
            Event::EndNode => {},
            Event::Property { .. } => lemma_on_level_bounds(events, pos + 1, at),
        }
    }
}

/// The outcome of a walk through an area node, with its position moved on
/// by one.
pub open spec fn moved_on(r: Result<(AreaView, int), ExtractError>) -> Result<
    (AreaView, int),
    ExtractError,
> {
    match r {
        Ok((area, next)) => Ok((area, next + 1)),
        Err(e) => Err(e),
    }
}

/// Behind an event that was put into a stream, passing over a node goes as
/// before, one position on.
pub proof fn lemma_skip_behind_inserted(
    events: Seq<Event>,
    at: int,
    put: Event,
    pos: int,
    depth: nat,
)
    requires
        0 <= at <= pos,
        at <= events.len(),
    ensures
        skip_end(events.insert(at, put), pos + 1, depth) == match skip_end(events, pos, depth) {
            Some(next) => Some(next + 1),
            None => None,
        },
    decreases events.len() - pos,
{
    let longer = events.insert(at, put);
    assert(longer.len() == events.len() + 1);
    if pos < events.len() {
        assert(longer[pos + 1] == events[pos]);
        match events[pos] {
            Event::StartNode { .. } => lemma_skip_behind_inserted(
                events,
                at,
                put,
                pos + 1,
                depth + 1,
            ),
            Event::EndNode => if depth > 0 {
                lemma_skip_behind_inserted(events, at, put, pos + 1, (depth - 1) as nat)
            },
            Event::Property { .. } => lemma_skip_behind_inserted(events, at, put, pos + 1, depth),
        }
    }
}

/// Before an event that was put into a stream, passing over a node that
/// ends there or earlier goes as before.
pub proof fn lemma_skip_before_inserted(
    events: Seq<Event>,
    at: int,
    put: Event,
    pos: int,
    depth: nat,
)
    requires
        0 <= pos,
        at <= events.len(),
        skip_end(events, pos, depth) matches Some(next) && next <= at,
    ensures
        skip_end(events.insert(at, put), pos, depth) == skip_end(events, pos, depth),
    decreases events.len() - pos,
{
    let longer = events.insert(at, put);
    lemma_skip_end_bounds(events, pos, depth);
    assert(longer[pos] == events[pos]);
    match events[pos] {
        Event::StartNode { .. } => lemma_skip_before_inserted(events, at, put, pos + 1, depth + 1),
        Event::EndNode => if depth > 0 {
            lemma_skip_before_inserted(events, at, put, pos + 1, (depth - 1) as nat)
        },
        Event::Property { .. } => lemma_skip_before_inserted(events, at, put, pos + 1, depth),
    }
}

/// Behind an event that was put into a stream, the walk through an area
/// node goes as before, one position on.
pub proof fn lemma_walk_behind_inserted(
    events: Seq<Event>,
    at: int,
    put: Event,
    pos: int,
    area: AreaView,
)
    requires
        0 <= at <= pos,
        at <= events.len(),
    ensures
        area_walk(events.insert(at, put), pos + 1, area) == moved_on(area_walk(events, pos, area)),
    decreases events.len() - pos,
{
    let longer = events.insert(at, put);
    assert(longer.len() == events.len() + 1);
    if pos < events.len() {
        assert(longer[pos + 1] == events[pos]);
        match events[pos] {
            Event::StartNode { .. } => {
                lemma_skip_behind_inserted(events, at, put, pos + 1, 0);
                lemma_skip_end_bounds(events, pos + 1, 0);
                if let Some(next) = skip_end(events, pos + 1, 0) {
                    lemma_walk_behind_inserted(events, at, put, next, area);
                }
            },
            Event::EndNode => {},
            Event::Property { name, value } => if !(value is TooLong) {
                lemma_walk_behind_inserted(events, at, put, pos + 1, assigned(area, name@, value))
            },
        }
    }
}

/// A property with a name that an area does not know, put into an area
/// node at the area's own level, changes nothing of the area that is read:
/// the walk gives the same area, or the same failure, and ends one position
/// further on.
pub proof fn lemma_unknown_property_in_stream(
    events: Seq<Event>,
    start: int,
    at: int,
    name: String,
    value: Scalar,
    area: AreaView,
)
    requires
        on_level(events, start, at),
        !(value is TooLong),
        name@ != "description"@,
        name@ != "compatible"@,
        name@ != "offset"@,
        name@ != "size"@,
        name@ != "file"@,
    ensures
        area_walk(events.insert(at, Event::Property { name, value }), start, area) == moved_on(
            area_walk(events, start, area),
        ),
    decreases events.len() - start,
{
    let put = Event::Property { name, value };
    let longer = events.insert(at, put);
    lemma_on_level_bounds(events, start, at);
    assert(longer.len() == events.len() + 1);
    if start == at {
        assert(longer[at] == put);
        lemma_unknown_property_ignored(area, name@, value);
        lemma_walk_behind_inserted(events, at, put, at, area);
    } else {
        assert(longer[start] == events[start]);
        match events[start] {
            Event::StartNode { .. } => {
                let next = skip_end(events, start + 1, 0)->Some_0;
                lemma_skip_before_inserted(events, at, put, start + 1, 0);
                lemma_unknown_property_in_stream(events, next, at, name, value, area);
            },
            Event::EndNode => {},
            Event::Property { name: own_name, value: own_value } => {
                lemma_unknown_property_in_stream(
                    events,
                    start + 1,
                    at,
                    name,
                    value,
                    assigned(area, own_name@, own_value),
                );
            },
        }
    }
}

/// A property whose value is not of the type that its name asks for changes
/// nothing.
pub proof fn lemma_mistyped_property_ignored(area: AreaView, name: Seq<char>, value: Scalar)
    requires
        match value {
            Scalar::Text(_) => name == "offset"@ || name == "size"@,
            Scalar::Word(_) => name == "description"@ || name == "compatible"@ || name == "file"@,
            Scalar::Unknown => true,
            Scalar::TooLong => true,
        },
    ensures
        assigned(area, name, value) == area,
{
    reveal_strlit("description");
    reveal_strlit("compatible");
    reveal_strlit("offset");
    reveal_strlit("size");
    reveal_strlit("file");
    assert("offset"@.len() == 6);
    assert("size"@.len() == 4);
    assert("description"@.len() == 11);
    assert("compatible"@.len() == 10);
    assert("file"@[0] == 'f');
    assert("size"@[0] == 's');
}

/// Whether `text` reads exactly as `word`.
fn text_is(text: &String, word: &str) -> (same: bool)
    ensures
        same == (text@ == word@),
{
    let other = String::from_str(word);
    *text == other
}

/// Whether `text` begins with `prefix`.
pub fn starts_with(text: &str, prefix: &str) -> (found: bool)
    ensures
        found == has_prefix(text@, prefix@),
{
    let n = prefix.unicode_len();
    if text.unicode_len() < n {
        return false;
    }
    let mut i: usize = 0;
    while i < n
        invariant
            n == prefix@.len(),
            n <= text@.len(),
            i <= n,
            forall|k: int| 0 <= k < i ==> text@[k] == prefix@[k],
        decreases n - i,
    {
        if text.get_char(i) != prefix.get_char(i) {
            proof {
                assert(text@.subrange(0, n as int)[i as int] == text@[i as int]);
            }
            return false;
        }
        i += 1;
    }
    proof {
        assert(text@.subrange(0, n as int) =~= prefix@);
    }
    true
}

/// Applies one property to an area: `description`, `compatible` and `file`
/// take a text, `offset` and `size` an integer; any other pairing of name
/// and value is dropped without complaint.
pub fn assign_property(area: &mut Area, name: &String, value: &Scalar)
    ensures
        final(area)@ == assigned(old(area)@, name@, *value),
{
    match value {
        Scalar::Text(t) => {
            if text_is(name, "description") {
                area.description = t.clone();
            } else if text_is(name, "compatible") {
                area.compatible = t.clone();
            } else if text_is(name, "file") {
                area.file = Some(t.clone());
            }
        },
        Scalar::Word(w) => {
            if text_is(name, "offset") {
                area.offset = Some(*w);
            } else if text_is(name, "size") {
                area.size = *w;
            }
        },
        Scalar::Unknown => {},
        Scalar::TooLong => {},
    }
}

/// Passes over the node whose body starts at `start`, with everything
/// nested in it, and returns the position behind its end. Fails exactly
/// where the stream ends before the node is closed.
pub fn skip_node(events: &Vec<Event>, start: usize) -> (r: Result<usize, ExtractError>)
    requires
        start <= events.len(),
    ensures
        match skip_end(events@, start as int, 0) {
            Some(next) => r == Ok::<usize, ExtractError>(next as usize) && start < next
                <= events.len(),
            None => r == Err::<usize, ExtractError>(ExtractError::Malformed),
        },
{
    let mut pos: usize = start;
    let mut depth: usize = 0;
    proof {
        lemma_skip_end_bounds(events@, start as int, 0);
    }
    while pos < events.len()
        invariant
            start <= pos <= events.len(),
            depth <= pos - start,
            skip_end(events@, pos as int, depth as nat) == skip_end(events@, start as int, 0),
        decreases events.len() - pos,
    {
        match &events[pos] {
            Event::StartNode { .. } => {
                depth += 1;
            },
            Event::EndNode => {
                if depth == 0 {
                    return Ok(pos + 1);
                }
                depth -= 1;
            },
            Event::Property { .. } => {},
        }
        pos += 1;
    }
    Err(ExtractError::Malformed)
}

/// Reads the area node whose body starts at `start`: applies its
/// properties in stream order, so that the last one of a name wins, passes
/// over nested nodes, and stops behind the node's end. Returns the area and
/// the position reached. Fails exactly where a property of the area has a
/// value that is too long, or the stream ends before the node, or a node
/// nested in it, is closed; the error is that of the first such place.
pub fn read_area_node(events: &Vec<Event>, start: usize) -> (r: Result<(Area, usize), ExtractError>)
    requires
        start <= events.len(),
    ensures
        match area_walk(events@, start as int, blank_area()) {
            Ok((area, next)) => r is Ok && r->Ok_0.0@ == area && r->Ok_0.1 == next && start
                < next <= events.len(),
            Err(e) => r == Err::<(Area, usize), ExtractError>(e),
        },
{
    let mut area = Area::new();
    let mut pos: usize = start;
    proof {
        lemma_area_walk_bounds(events@, start as int, blank_area());
    }
    while pos < events.len()
        invariant
            start <= pos <= events.len(),
            area_walk(events@, pos as int, area@) == area_walk(
                events@,
                start as int,
                blank_area(),
            ),
        decreases events.len() - pos,
    {
        match &events[pos] {
            Event::StartNode { .. } => {
                match skip_node(events, pos + 1) {
                    Ok(next) => {
                        pos = next;
                    },
                    Err(e) => {
                        return Err(e);
                    },
                }
            },
            Event::EndNode => {
                return Ok((area, pos + 1));
            },
            Event::Property { name, value } => {
                if let Scalar::TooLong = value {
                    return Err(ExtractError::ValueTooLong);
                }
                assign_property(&mut area, name, value);
                pos += 1;
            },
        }
    }
    Err(ExtractError::Malformed)
}

/// Walks the stream from `start` on and collects the areas.
fn walk_areas(events: &Vec<Event>, start: usize, inside: bool) -> (r: Result<
    Vec<Area>,
    ExtractError,
>)
    requires
        start <= events.len(),
    ensures
        match areas_walk(events@, start as int, Seq::empty(), inside) {
            Ok(found) => r is Ok && area_views(r->Ok_0@) == found,
            Err(e) => r == Err::<Vec<Area>, ExtractError>(e),
        },
{
    let mut areas: Vec<Area> = Vec::new();
    let mut pos: usize = start;
    proof {
        assert(area_views(areas@) =~= Seq::<AreaView>::empty());
    }
    while pos < events.len()
        invariant
            start <= pos <= events.len(),
            areas_walk(events@, pos as int, area_views(areas@), inside) == areas_walk(
                events@,
                start as int,
                Seq::empty(),
                inside,
            ),
        decreases events.len() - pos,
    {
        match &events[pos] {
            Event::StartNode { name } => {
                if starts_with(name.as_str(), "area@") {
                    match read_area_node(events, pos + 1) {
                        Ok((area, next)) => {
                            proof {
                                assert(area_views(areas@.push(area)) =~= area_views(areas@).push(
                                    area@,
                                ));
                            }
                            areas.push(area);
                            pos = next;
                        },
                        Err(e) => {
                            return Err(e);
                        },
                    }
                } else {
                    match skip_node(events, pos + 1) {
                        Ok(next) => {
                            pos = next;
                        },
                        Err(e) => {
                            return Err(e);
                        },
                    }
                }
            },
            Event::EndNode => {
                if inside {
                    return Ok(areas);
                }
                pos += 1;
            },
            Event::Property { .. } => {
                pos += 1;
            },
        }
    }
    if inside {
        Err(ExtractError::Malformed)
    } else {
        Ok(areas)
    }
}

/// Reads every area of a stream of top-level events: one for each node at
/// the top level whose name starts with `area@`, in stream order. Other
/// nodes are passed over whole; properties and node ends at the top level
/// are ignored. Fails exactly where a property of an area has a value that
/// is too long, or the stream ends inside an area or inside a node that is
/// passed over; the error is that of the first such place.
pub fn read_areas(events: &Vec<Event>) -> (r: Result<Vec<Area>, ExtractError>)
    ensures
        match areas_of(events@) {
            Ok(found) => r is Ok && area_views(r->Ok_0@) == found,
            Err(e) => r == Err::<Vec<Area>, ExtractError>(e),
        },
{
    walk_areas(events, 0, false)
}

/// Reads every area of a whole tree. The stream opens with the root node;
/// the areas are the children of the root whose name starts with `area@`,
/// in stream order, and the root's end ends the reading. Fails exactly
/// where the stream does not open with a node, where it ends before the
/// root or a node below it is closed, and where a property of an area has
/// a value that is too long; the error is that of the first such place.
pub fn read_tree(events: &Vec<Event>) -> (r: Result<Vec<Area>, ExtractError>)
    ensures
        match tree_areas(events@) {
            Ok(found) => r is Ok && area_views(r->Ok_0@) == found,
            Err(e) => r == Err::<Vec<Area>, ExtractError>(e),
        },
{
    if events.len() == 0 {
        return Err(ExtractError::Malformed);
    }
    match &events[0] {
        Event::StartNode { .. } => walk_areas(events, 1, true),
        _ => Err(ExtractError::Malformed),
    }
}

/// Takes the inferred value of a property of which `read` bytes were read,
/// unless more were read than the `capacity` of the reader: such a value
/// is `TooLong`.
pub fn bound_value(read: usize, capacity: usize, inferred: Scalar) -> (r: Scalar)
    ensures
        r == bounded(read, capacity, inferred),
{
    if read > capacity {
        Scalar::TooLong
    } else {
        inferred
    }
}

} // verus!
