use vstd::prelude::*;
use vstd::string::StrSliceExecFns;
use crate::text::{
    CharClass, chars_of, in_class, line_sep, list1, list_rest, parse_line_ending, parse_run1, parse_tag,
    run_end, spec_line_ending, spec_run1, spec_tag, spec_word, string_range,
};

verus! {

/// The eighth day: walks through a network of nodes.
pub struct Day08;

/// Which of the two ways out of a node to take.
#[derive(Debug, Clone, Copy, PartialEq, Eq, Structural)]
pub enum Direction {
    Left,
    Right,
}

/// The left or the right one of a pair, as `pick` says.
pub fn sided<'a, 'b, T>(source: &'a (&'b T, &'b T), pick: &Direction) -> (r: &'b T) where
    T: ?Sized,

    ensures
        r == (match *pick {
            Direction::Left => source.0,
            Direction::Right => source.1,
        }),
{
    match pick {
        Direction::Left => source.0,
        Direction::Right => source.1,
    }
}

/// A node of the network: its name, and the names of the nodes to its left
/// and to its right.
#[derive(Debug)]
pub struct Node {
    pub node: String,
    pub direction: (String, String),
}

/// The instructions to follow, over and over, and the nodes to follow them
/// through.
#[derive(Debug)]
pub struct Network {
    pub lr_instructions: Vec<Direction>,
    pub nodes: Vec<Node>,
}

/// The left or the right one of two names.
pub open spec fn pick_side(targets: (Seq<char>, Seq<char>), pick: Direction) -> Seq<char> {
    match pick {
        Direction::Left => targets.0,
        Direction::Right => targets.1,
    }
}

/// The name ends with the letter `Z`.
pub open spec fn ends_with_z(name: Seq<char>) -> bool {
    name.len() > 0 && name.last() == 'Z'
}

/// The nodes as a map from a name to the names to its left and right. Of two
/// nodes with one name the later one counts.
pub open spec fn node_map(nodes: Seq<Node>) -> Map<Seq<char>, (Seq<char>, Seq<char>)>
    decreases nodes.len(),
{
    if nodes.len() == 0 {
        Map::empty()
    } else {
        node_map(nodes.drop_last()).insert(
            nodes.last().node@,
            (nodes.last().direction.0@, nodes.last().direction.1@),
        )
    }
}

/// The last node with a name decides what the name maps to.
pub proof fn lemma_node_map_last_match(nodes: Seq<Node>, name: Seq<char>, i: int)
    requires
        0 <= i < nodes.len(),
        nodes[i].node@ == name,
        forall|j: int| i < j < nodes.len() ==> (#[trigger] nodes[j]).node@ != name,
    ensures
        node_map(nodes).contains_key(name),
        node_map(nodes)[name] == (nodes[i].direction.0@, nodes[i].direction.1@),
    decreases nodes.len(),
{
    if i < nodes.len() - 1 {
        assert(nodes.drop_last()[i] == nodes[i]);
        assert forall|j: int| i < j < nodes.drop_last().len() implies (#[trigger] nodes.drop_last()[j]).node@
            != name by {
            assert(nodes.drop_last()[j] == nodes[j]);
        }
        lemma_node_map_last_match(nodes.drop_last(), name, i);
        assert(nodes.last() == nodes[nodes.len() - 1]);
    }
}

/// A name that no node has maps to nothing.
pub proof fn lemma_node_map_absent(nodes: Seq<Node>, name: Seq<char>)
    requires
        forall|j: int| 0 <= j < nodes.len() ==> (#[trigger] nodes[j]).node@ != name,
    ensures
        !node_map(nodes).contains_key(name),
    decreases nodes.len(),
{
    if nodes.len() > 0 {
        assert forall|j: int| 0 <= j < nodes.drop_last().len() implies (#[trigger] nodes.drop_last()[j]).node@
            != name by {
            assert(nodes.drop_last()[j] == nodes[j]);
        }
        lemma_node_map_absent(nodes.drop_last(), name);
        assert(nodes.last() == nodes[nodes.len() - 1]);
    }
}

/// The nodes of a network, looked up by name.
#[derive(Debug)]
pub struct FlatMap<'a> {
    nodes: &'a Vec<Node>,
}

impl<'a> View for FlatMap<'a> {
    type V = Map<Seq<char>, (Seq<char>, Seq<char>)>;

    /// The map from each name to the names to its left and right.
    closed spec fn view(&self) -> Map<Seq<char>, (Seq<char>, Seq<char>)> {
        node_map(self.nodes@)
    }
}

impl<'a> FlatMap<'a> {
    /// The names to the left and right of the node called `name`, if there
    /// is one.
    pub fn get(&self, name: &String) -> (r: Option<(&'a String, &'a String)>)
        ensures
            match r {
                Some(targets) => self@.contains_key(name@) && self@[name@] == (
                    targets.0@,
                    targets.1@,
                ),
                None => !self@.contains_key(name@),
            },
    {
        let mut i: usize = self.nodes.len();
        while i > 0
            invariant
                i <= self.nodes@.len(),
                forall|j: int| i <= j < self.nodes@.len() ==> (#[trigger] self.nodes@[j]).node@ != name@,
            decreases i,
        {
            i -= 1;
            let node: &'a Node = &self.nodes[i];
            if node.node == *name {
                proof {
                    lemma_node_map_last_match(self.nodes@, name@, i as int);
                }
                return Some((&node.direction.0, &node.direction.1));
            }
        }
        proof {
            lemma_node_map_absent(self.nodes@, name@);
        }
        None
    }
}

/// The nodes of `input`, to be looked up by name.
pub fn create_btm(input: &Network) -> (map: FlatMap<'_>)
    ensures
        map@ == node_map(input.nodes@),
{
    FlatMap { nodes: &input.nodes }
}

/// Whether `name` ends with the letter `Z`.
fn name_ends_with_z(name: &str) -> (b: bool)
    ensures
        b == ends_with_z(name@),
{
    let n: usize = name.unicode_len();
    if n == 0 {
        false
    } else {
        name.get_char(n - 1) == 'Z'
    }
}

/// One walker through a network: where it started, where it stands now, and
/// how many steps it has taken.
#[derive(Debug)]
pub struct Follower<'lt> {
    start_at: String,
    current_node: Option<String>,
    map_ref: &'lt FlatMap<'lt>,
    step_count: usize,
}

impl<'lt> Follower<'lt> {
    /// The name of the node the walker started at.
    pub closed spec fn start(&self) -> Seq<char> {
        self.start_at@
    }

    /// The name of the node the walker has reached, once it has taken a step.
    pub closed spec fn current(&self) -> Option<Seq<char>> {
        match self.current_node {
            Some(c) => Some(c@),
            None => None,
        }
    }

    /// The number of steps taken.
    pub closed spec fn steps(&self) -> nat {
        self.step_count as nat
    }

    /// The network the walker moves through.
    pub closed spec fn network(&self) -> Map<Seq<char>, (Seq<char>, Seq<char>)> {
        self.map_ref@
    }

    /// The name of the node the walker stands at.
    pub open spec fn position(&self) -> Seq<char> {
        match self.current() {
            Some(c) => c,
            None => self.start(),
        }
    }

    /// The walker has taken a step and stands at a node whose name ends with
    /// `Z`.
    pub open spec fn completed(&self) -> bool {
        match self.current() {
            Some(c) => ends_with_z(c),
            None => false,
        }
    }

    /// A walker that stands at `start_at` and has not taken a step.
    pub fn new(start_at: &str, map: &'lt FlatMap<'lt>) -> (f: Self)
        ensures
            f.start() == start_at@,
            f.current().is_none(),
            f.steps() == 0,
            f.network() == map@,
    {
        Self { start_at: start_at.to_owned(), map_ref: map, current_node: None, step_count: 0 }
    }

    /// Takes one step in the direction `using` and says whether the walker
    /// has now completed its walk. The node the walker stands at must be in
    /// the network.
    pub fn step(&mut self, using: &Direction) -> (done: bool)
        requires
            old(self).steps() < usize::MAX,
            old(self).network().contains_key(old(self).position()),
        ensures
            final(self).current() == Some(
                pick_side(old(self).network()[old(self).position()], *using),
            ),
            final(self).steps() == old(self).steps() + 1,
            final(self).start() == old(self).start(),
            final(self).network() == old(self).network(),
            done == final(self).completed(),
    {
        if self.current_node.is_none() {
            self.current_node = Some(self.start_at.clone());
        }
        let targets: (&String, &String) = self.map_ref.get(
            self.current_node.as_ref().unwrap(),
        ).unwrap();
        let next_step: &String = match using {
            Direction::Left => targets.0,
            Direction::Right => targets.1,
        };
        self.current_node = Some(next_step.clone());
        self.step_count += 1;
        self.is_completed()
    }

    /// Whether the walker has taken a step and stands at a node whose name
    /// ends with `Z`.
    pub fn is_completed(&self) -> (b: bool)
        ensures
            b == self.completed(),
    {
        match &self.current_node {
            Some(c) => name_ends_with_z(c.as_str()),
            None => false,
        }
    }

    /// The number of steps taken.
    pub fn step_count(&self) -> (n: usize)
        ensures
            n == self.steps(),
    {
        self.step_count
    }
}

/// Where a walk from `start` stands after `k` steps through `network`, the
/// instructions followed over and over; `None` once the walk has come to a
/// name that the network does not hold.
pub open spec fn walk(
    network: Map<Seq<char>, (Seq<char>, Seq<char>)>,
    instructions: Seq<Direction>,
    start: Seq<char>,
    k: nat,
) -> Option<Seq<char>>
    decreases k,
{
    if k == 0 {
        Some(start)
    } else {
        match walk(network, instructions, start, (k - 1) as nat) {
            Some(c) => if network.contains_key(c) {
                Some(pick_side(network[c], instructions[(k - 1) % (instructions.len() as int)]))
            } else {
                None
            },
            None => None,
        }
    }
}

/// After `k` steps the walk stands at a node whose name ends with `Z`.
pub open spec fn arrives(
    network: Map<Seq<char>, (Seq<char>, Seq<char>)>,
    instructions: Seq<Direction>,
    start: Seq<char>,
    k: nat,
) -> bool {
    match walk(network, instructions, start, k) {
        Some(c) => ends_with_z(c),
        None => false,
    }
}

/// A walk that has left the network never comes back.
pub proof fn lemma_walk_stays_lost(
    network: Map<Seq<char>, (Seq<char>, Seq<char>)>,
    instructions: Seq<Direction>,
    start: Seq<char>,
    k: nat,
    later: nat,
)
    requires
        walk(network, instructions, start, k).is_none(),
        k <= later,
    ensures
        walk(network, instructions, start, later).is_none(),
    decreases later,
{
    if k < later {
        lemma_walk_stays_lost(network, instructions, start, k, (later - 1) as nat);
    }
}

/// The name ends with the letter `A`.
pub open spec fn ends_with_a(name: Seq<char>) -> bool {
    name.len() > 0 && name.last() == 'A'
}

/// The names of the nodes whose name ends with `A`, in the order of the
/// nodes.
pub open spec fn start_names(nodes: Seq<Node>) -> Seq<Seq<char>>
    decreases nodes.len(),
{
    if nodes.len() == 0 {
        Seq::empty()
    } else if ends_with_a(nodes.last().node@) {
        start_names(nodes.drop_last()).push(nodes.last().node@)
    } else {
        start_names(nodes.drop_last())
    }
}

/// Whether `name` ends with the letter `A`.
fn name_ends_with_a(name: &str) -> (b: bool)
    ensures
        b == ends_with_a(name@),
{
    let n: usize = name.unicode_len();
    if n == 0 {
        false
    } else {
        name.get_char(n - 1) == 'A'
    }
}

impl Day08 {
    /// One walker for each node whose name ends with `A`, in the order of the
    /// nodes: each stands at its node and has not taken a step.
    pub fn followers<'lt>(input: &Network, map: &'lt FlatMap<'lt>) -> (running: Vec<Follower<'lt>>)
        ensures
            running@.len() == start_names(input.nodes@).len(),
            forall|i: int|
                0 <= i < running@.len() ==> {
                    &&& (#[trigger] running@[i]).start() == start_names(input.nodes@)[i]
                    &&& running@[i].current().is_none()
                    &&& running@[i].steps() == 0
                    &&& running@[i].network() == map@
                },
    {
        let n: usize = input.nodes.len();
        let mut running: Vec<Follower<'lt>> = Vec::new();
        let mut k: usize = 0;
        proof {
            assert(input.nodes@.take(0) =~= Seq::<Node>::empty());
        }
        while k < n
            invariant
                n == input.nodes@.len(),
                k <= n,
                running@.len() == start_names(input.nodes@.take(k as int)).len(),
                forall|i: int|
                    0 <= i < running@.len() ==> {
                        &&& (#[trigger] running@[i]).start() == start_names(
                            input.nodes@.take(k as int),
                        )[i]
                        &&& running@[i].current().is_none()
                        &&& running@[i].steps() == 0
                        &&& running@[i].network() == map@
                    },
            decreases n - k,
        {
            proof {
                assert(input.nodes@.take(k + 1).drop_last() =~= input.nodes@.take(k as int));
                assert(input.nodes@.take(k + 1).last() == input.nodes@[k as int]);
            }
            let name: &str = input.nodes[k].node.as_str();
            if name_ends_with_a(name) {
                running.push(Follower::new(name, map));
            }
            k += 1;
        }
        proof {
            assert(input.nodes@.take(n as int) =~= input.nodes@);
        }
        running
    }

    /// The number of steps from the node `AAA` to the first node whose name
    /// ends with `Z`, the instructions followed over and over; 0 when there
    /// is no instruction to follow. `None` when the walk comes to a name that
    /// the network does not hold, or has not arrived after `usize::MAX`
    /// steps.
    pub fn part_1(input: &Network) -> (r: Option<usize>)
        ensures
            input.lr_instructions@.len() == 0 ==> r == Some(0usize),
            input.lr_instructions@.len() > 0 ==> match r {
                Some(n) => {
                    &&& n >= 1
                    &&& arrives(node_map(input.nodes@), input.lr_instructions@, "AAA"@, n as nat)
                    &&& forall|j: nat|
                        1 <= j < n ==> !arrives(
                            node_map(input.nodes@),
                            input.lr_instructions@,
                            "AAA"@,
                            j,
                        )
                },
                None => forall|j: nat|
                    1 <= j <= usize::MAX ==> !arrives(
                        node_map(input.nodes@),
                        input.lr_instructions@,
                        "AAA"@,
                        j,
                    ),
            },
    {
        let len: usize = input.lr_instructions.len();
        if len == 0 {
            return Some(0);
        }
        let map = create_btm(input);
        let start: String = "AAA".to_owned();
        let mut next_node: &String = &start;
        let mut cycle_count: usize = 0;
        let mut at: usize = 0;
        let ghost network = node_map(input.nodes@);
        let ghost instructions = input.lr_instructions@;
        while cycle_count < usize::MAX
            invariant
                len == instructions.len(),
                len > 0,
                instructions == input.lr_instructions@,
                network == map@,
                network == node_map(input.nodes@),
                at < len,
                at == cycle_count % len,
                walk(network, instructions, "AAA"@, cycle_count as nat) == Some(next_node@),
                forall|j: nat|
                    1 <= j <= cycle_count ==> !arrives(network, instructions, "AAA"@, j),
            decreases usize::MAX - cycle_count,
        {
            let dir: &Direction = &input.lr_instructions[at];
            match map.get(next_node) {
                None => {
                    proof {
                        let lost = (cycle_count + 1) as nat;
                        assert(walk(network, instructions, "AAA"@, lost).is_none());
                        assert forall|j: nat| 1 <= j <= usize::MAX implies !arrives(
                            network,
                            instructions,
                            "AAA"@,
                            j,
                        ) by {
                            if j > cycle_count {
                                lemma_walk_stays_lost(network, instructions, "AAA"@, lost, j);
                            }
                        }
                    }
                    return None;
                },
                Some(targets) => {
                    next_node = sided(&targets, dir);
                },
            }
            proof {
                assert((cycle_count + 1) % (len as int) == if at + 1 == len {
                    0
                } else {
                    at + 1
                }) by (nonlinear_arith)
                    requires
                        at == cycle_count % len,
                        0 <= at < len,
                        0 <= cycle_count,
                ;
            }
            cycle_count += 1;
            at = if at + 1 == len { 0 } else { at + 1 };
            if name_ends_with_z(next_node.as_str()) {
                return Some(cycle_count);
            }
        }
        None
    }
}

/// The direction that the letter `c` stands for: left for `L`, right
/// otherwise.
pub open spec fn turn_of(c: char) -> Direction {
    if c == 'L' {
        Direction::Left
    } else {
        Direction::Right
    }
}

/// A run of one or more of the letters `L` and `R` at `i`: the directions
/// they stand for, and where the run ends.
pub open spec fn spec_lrinst(s: Seq<char>, i: int) -> Option<(Seq<Direction>, int)> {
    match spec_run1(s, i, CharClass::Turn) {
        Some(e) => Some((Seq::new((e - i) as nat, |k: int| turn_of(s[i + k])), e)),
        None => None,
    }
}

/// One node at `i`, written as `AAA = (BBB, CCC)`: its name, the names to
/// its left and right, and where it ends.
pub open spec fn spec_node(s: Seq<char>, i: int) -> Option<
    ((Seq<char>, Seq<char>, Seq<char>), int),
> {
    match spec_word(s, i, CharClass::Alpha) {
        Some((name, a)) => match spec_tag(s, a, " = "@) {
            Some(b) => match spec_tag(s, b, "("@) {
                Some(c) => match spec_word(s, c, CharClass::Alpha) {
                    Some((left, d)) => match spec_tag(s, d, ", "@) {
                        Some(e) => match spec_word(s, e, CharClass::Alpha) {
                            Some((right, f)) => match spec_tag(s, f, ")"@) {
                                Some(end) => Some(((name, left, right), end)),
                                None => None,
                            },
                            None => None,
                        },
                        None => None,
                    },
                    None => None,
                },
                None => None,
            },
            None => None,
        },
        None => None,
    }
}

/// Reading one node.
pub open spec fn node_item() -> spec_fn(Seq<char>, int) -> Option<
    ((Seq<char>, Seq<char>, Seq<char>), int),
> {
    |s: Seq<char>, i: int| spec_node(s, i)
}

/// What the nodes hold: of each its name and the names to its left and
/// right.
pub open spec fn node_views(nodes: Seq<Node>) -> Seq<(Seq<char>, Seq<char>, Seq<char>)> {
    nodes.map_values(|n: Node| (n.node@, n.direction.0@, n.direction.1@))
}

/// A network at the start of `s`: the instructions, an empty line, and the
/// nodes, one to a line; and where it ends.
pub open spec fn spec_network(s: Seq<char>) -> Option<
    ((Seq<Direction>, Seq<(Seq<char>, Seq<char>, Seq<char>)>), int),
> {
    match spec_lrinst(s, 0) {
        Some((instructions, a)) => match spec_line_ending(s, a) {
            Some(b) => match spec_line_ending(s, b) {
                Some(c) => match list1(s, c, node_item(), line_sep()) {
                    Some((nodes, e)) => Some(((instructions, nodes), e)),
                    None => None,
                },
                None => None,
            },
            None => None,
        },
        None => None,
    }
}

/// Reads one of the letters `L` and `R` at `i`.
pub fn parse_direction(s: &[char], i: usize) -> (r: Option<(Direction, usize)>)
    ensures
        match r {
            Some((direction, e)) => {
                &&& i < s@.len()
                &&& in_class(CharClass::Turn, s@[i as int])
                &&& direction == turn_of(s@[i as int])
                &&& e == i + 1
            },
            None => !(i < s@.len() && in_class(CharClass::Turn, s@[i as int])),
        },
{
    if i < s.len() {
        if s[i] == 'L' {
            Some((Direction::Left, i + 1))
        } else if s[i] == 'R' {
            Some((Direction::Right, i + 1))
        } else {
            None
        }
    } else {
        None
    }
}

/// Reads a run of one or more of the letters `L` and `R` at `i`.
pub fn parse_lrinst(s: &[char], i: usize) -> (r: Option<(Vec<Direction>, usize)>)
    requires
        i <= s@.len(),
    ensures
        match r {
            Some((instructions, e)) => spec_lrinst(s@, i as int) == Some(
                (instructions@, e as int),
            ) && i < e <= s@.len(),
            None => spec_lrinst(s@, i as int).is_none(),
        },
{
    let mut instructions: Vec<Direction> = Vec::new();
    let mut k: usize = i;
    loop
        invariant
            i <= k <= s@.len(),
            run_end(s@, i as int, CharClass::Turn) == run_end(s@, k as int, CharClass::Turn),
            instructions@.len() == k - i,
            forall|j: int| 0 <= j < k - i ==> instructions@[j] == turn_of(s@[i + j]),
        decreases s@.len() - k,
    {
        match parse_direction(s, k) {
            Some((direction, next)) => {
                instructions.push(direction);
                k = next;
            },
            None => {
                proof {
                    assert(instructions@ =~= Seq::new((k - i) as nat, |j: int| turn_of(s@[i + j])));
                }
                if k == i {
                    return None;
                }
                return Some((instructions, k));
            },
        }
    }
}

/// Reads one node at `i` of `input`, whose characters are `s`.
pub fn parse_node(input: &str, s: &[char], i: usize) -> (r: Option<(Node, usize)>)
    requires
        s@ == input@,
        i <= s@.len(),
    ensures
        match r {
            Some((node, e)) => spec_node(s@, i as int) == Some(
                ((node.node@, node.direction.0@, node.direction.1@), e as int),
            ) && i < e <= s@.len(),
            None => spec_node(s@, i as int).is_none(),
        },
{
    let a: usize = match parse_run1(s, i, CharClass::Alpha) {
        Some(a) => a,
        None => {
            return None;
        },
    };
    let b: usize = match parse_tag(s, a, " = ") {
        Some(b) => b,
        None => {
            return None;
        },
    };
    let c: usize = match parse_tag(s, b, "(") {
        Some(c) => c,
        None => {
            return None;
        },
    };
    let d: usize = match parse_run1(s, c, CharClass::Alpha) {
        Some(d) => d,
        None => {
            return None;
        },
    };
    let e: usize = match parse_tag(s, d, ", ") {
        Some(e) => e,
        None => {
            return None;
        },
    };
    let f: usize = match parse_run1(s, e, CharClass::Alpha) {
        Some(f) => f,
        None => {
            return None;
        },
    };
    match parse_tag(s, f, ")") {
        Some(end) => Some(
            (
                Node {
                    node: string_range(input, i, a),
                    direction: (string_range(input, c, d), string_range(input, e, f)),
                },
                end,
            ),
        ),
        None => None,
    }
}

/// Reads nodes from `i` of `input` on, one to a line.
pub fn parse_nodes(input: &str, s: &[char], i: usize) -> (r: Option<(Vec<Node>, usize)>)
    requires
        s@ == input@,
        i <= s@.len(),
    ensures
        match r {
            Some((nodes, e)) => list1(s@, i as int, node_item(), line_sep()) == Some(
                (node_views(nodes@), e as int),
            ) && i < e <= s@.len(),
            None => list1(s@, i as int, node_item(), line_sep()).is_none(),
        },
{
    let (first, start) = match parse_node(input, s, i) {
        Some(found) => found,
        None => {
            return None;
        },
    };
    let mut nodes: Vec<Node> = Vec::new();
    proof {
        assert(node_views(nodes@.push(first)) =~= seq![
            (first.node@, first.direction.0@, first.direction.1@),
        ]);
    }
    nodes.push(first);
    let mut at: usize = start;
    loop
        invariant
            s@ == input@,
            i < at <= s@.len(),
            list1(s@, i as int, node_item(), line_sep()) == Some(
                list_rest(s@, at as int, node_item(), line_sep(), node_views(nodes@)),
            ),
        decreases s@.len() - at,
    {
        let next: usize = match parse_line_ending(s, at) {
            Some(next) => next,
            None => {
                return Some((nodes, at));
            },
        };
        match parse_node(input, s, next) {
            Some((node, m)) => {
                proof {
                    assert(node_views(nodes@.push(node)) =~= node_views(nodes@).push(
                        (node.node@, node.direction.0@, node.direction.1@),
                    ));
                }
                nodes.push(node);
                at = m;
            },
            None => {
                return Some((nodes, at));
            },
        }
    }
}

impl Day08 {
    /// Reads a network from the start of `input`: a line of the letters `L`
    /// and `R`, an empty line, and the nodes, one to a line. Hands back the
    /// network and the number of characters read, or `None` when `input`
    /// does not begin with a network.
    pub fn parse(input: &str) -> (r: Option<(Network, usize)>)
        ensures
            match r {
                Some((network, e)) => spec_network(input@) == Some(
                    ((network.lr_instructions@, node_views(network.nodes@)), e as int),
                ) && e <= input@.len(),
                None => spec_network(input@).is_none(),
            },
    {
        let text: Vec<char> = chars_of(input);
        let s: &[char] = text.as_slice();
        let (lr_instructions, a) = match parse_lrinst(s, 0) {
            Some(found) => found,
            None => {
                return None;
            },
        };
        let b: usize = match parse_line_ending(s, a) {
            Some(b) => b,
            None => {
                return None;
            },
        };
        let c: usize = match parse_line_ending(s, b) {
            Some(c) => c,
            None => {
                return None;
            },
        };
        match parse_nodes(input, s, c) {
            Some((nodes, e)) => Some((Network { lr_instructions, nodes }, e)),
            None => None,
        }
    }
}

} // verus!
