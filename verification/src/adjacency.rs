//! Adjacency lists: `adj[node] = [neighbors]`.

use vstd::prelude::*;

use crate::json::{
    json_member_number_lists, json_number_lists, read_member_number_lists, read_number_lists,
    write_number_lists,
};
use crate::text::{
    chars_of, lines, nested, parse_number, parsed_number, split_lines, split_words, words,
};

verus! {

/// Adjacency list representation: `adj[node_id] = [neighbor_ids]`.
pub type AdjacencyList = Vec<Vec<usize>>;

/// The lists are those of an undirected graph without parallel edges: each node lists nodes only,
/// none twice, and each of them lists it back.
pub open spec fn undirected(adj: Seq<Seq<usize>>) -> bool {
    &&& forall|i: int, k: int|
        0 <= i < adj.len() && 0 <= k < adj[i].len() ==> (#[trigger] adj[i][k]) < adj.len()
    &&& forall|i: int| 0 <= i < adj.len() ==> (#[trigger] adj[i]).no_duplicates()
    &&& forall|i: int, j: int|
        0 <= i < adj.len() && 0 <= j < adj.len() ==> #[trigger] adj[i].contains(j as usize)
            == adj[j].contains(i as usize)
}

/// No node is its own neighbor.
pub open spec fn loopless(adj: Seq<Seq<usize>>) -> bool {
    forall|a: int| 0 <= a < adj.len() ==> !(#[trigger] adj[a]).contains(a as usize)
}

/// Why no adjacency list was read.
#[derive(Debug, PartialEq, Eq, Clone, Copy)]
pub enum AdjacencyError {
    /// The content is in no known format, or holds no node.
    Unreadable,
    /// A node comes after as many nodes as a list can hold.
    TooManyNodes,
}

/// One line of the text format: a node and its neighbors.
pub struct NodeLine {
    /// The node, unless the line does not begin with a number.
    pub node: Option<usize>,
    pub neighbors: Vec<usize>,
}

/// What a line of the text format says.
pub ghost struct NodeLineView {
    pub node: Option<usize>,
    pub neighbors: Seq<usize>,
}

impl View for NodeLine {
    type V = NodeLineView;

    open spec fn view(&self) -> NodeLineView {
        NodeLineView { node: self.node, neighbors: self.neighbors@ }
    }
}

/// What each of a list of lines says.
pub open spec fn line_views(lines: Seq<NodeLine>) -> Seq<NodeLineView> {
    lines.map_values(|line: NodeLine| line@)
}

/// The numbers among some words; other words are passed over.
pub open spec fn numbers_among(words: Seq<Seq<char>>) -> Seq<usize>
    decreases words.len(),
{
    if words.len() == 0 {
        Seq::empty()
    } else {
        let before = numbers_among(words.drop_last());
        match parsed_number(words.last()) {
            Some(number) => before.push(number),
            None => before,
        }
    }
}

/// What the words of one line say: nothing if there are none or the first begins with `#`, else a
/// node and its neighbors.
pub open spec fn node_line(words: Seq<Seq<char>>) -> Option<NodeLineView> {
    if words.len() == 0 || (words[0].len() > 0 && words[0][0] == '#') {
        None
    } else {
        Some(
            NodeLineView {
                node: parsed_number(words[0]),
                neighbors: numbers_among(words.skip(1)),
            },
        )
    }
}

/// What some lines of text say, in order.
pub open spec fn node_lines(lines: Seq<Seq<char>>) -> Seq<NodeLineView>
    decreases lines.len(),
{
    if lines.len() == 0 {
        Seq::empty()
    } else {
        let before = node_lines(lines.drop_last());
        match node_line(words(lines.last())) {
            Some(line) => before.push(line),
            None => before,
        }
    }
}

/// The node that a line speaks of: the one that it names, else the next one.
pub open spec fn node_of(line: NodeLineView, count: nat) -> int {
    match line.node {
        Some(node) => node as int,
        None => count as int,
    }
}

/// An adjacency list after one more line: it has at least all nodes up to that of the line, and
/// that node has the neighbors that the line gives.
pub open spec fn with_line(adj: Seq<Seq<usize>>, line: NodeLineView) -> Seq<Seq<usize>> {
    let node = node_of(line, adj.len());
    let count = if adj.len() <= node {
        node + 1
    } else {
        adj.len() as int
    };
    Seq::new(
        count as nat,
        |i: int|
            if i == node {
                line.neighbors
            } else if i < adj.len() {
                adj[i]
            } else {
                Seq::empty()
            },
    )
}

/// The adjacency list that some lines describe, taken in order.
pub open spec fn adjacency_of(lines: Seq<NodeLineView>) -> Seq<Seq<usize>>
    decreases lines.len(),
{
    if lines.len() == 0 {
        Seq::empty()
    } else {
        with_line(adjacency_of(lines.drop_last()), lines.last())
    }
}

/// Whether a list of the nodes up to that of each line has a length that a `usize` holds.
pub open spec fn lines_fit(lines: Seq<NodeLineView>) -> bool {
    forall|i: int|
        0 <= i < lines.len() ==> node_of(
            #[trigger] lines[i],
            adjacency_of(lines.take(i)).len(),
        ) < usize::MAX
}

/// What is read from a text in the text format.
pub open spec fn text_adjacency(text: Seq<char>) -> Result<Seq<Seq<usize>>, AdjacencyError> {
    let described = node_lines(lines(text));
    if !lines_fit(described) {
        Err(AdjacencyError::TooManyNodes)
    } else if described.len() == 0 {
        Err(AdjacencyError::Unreadable)
    } else {
        Ok(adjacency_of(described))
    }
}

/// What is read from a content: an array of arrays, else the member `neighbors` of an object, else
/// the text format.
pub open spec fn adjacency(content: Seq<char>) -> Result<Seq<Seq<usize>>, AdjacencyError> {
    match json_number_lists(content, usize::MAX as nat) {
        Some(adj) => Ok(adj),
        None => match json_member_number_lists(content, "neighbors"@, usize::MAX as nat) {
            Some(adj) => Ok(adj),
            None => text_adjacency(content),
        },
    }
}

/// An adjacency list, or the error, as a value to compare.
pub open spec fn adjacency_view(read: Result<AdjacencyList, AdjacencyError>) -> Result<
    Seq<Seq<usize>>,
    AdjacencyError,
> {
    match read {
        Ok(adj) => Ok(nested(adj@)),
        Err(error) => Err(error),
    }
}

/// Reads one line of the text format, split into words.
pub fn read_node_line(words: &Vec<Vec<char>>) -> (line: Option<NodeLine>)
    ensures
        line is Some == node_line(nested(words@)) is Some,
        line matches Some(line) ==> node_line(nested(words@)) == Some(line@),
{
    if words.len() == 0 {
        return None;
    }
    assert(nested(words@)[0] == words@[0]@);
    if words[0].len() > 0 && words[0][0] == '#' {
        return None;
    }
    let ghost rest = nested(words@).skip(1);
    let mut neighbors: Vec<usize> = Vec::new();
    let mut i: usize = 1;
    assert(rest.take(0) =~= Seq::empty());
    while i < words.len()
        invariant
            1 <= i <= words@.len(),
            rest == nested(words@).skip(1),
            neighbors@ == numbers_among(rest.take(i - 1)),
        decreases words.len() - i,
    {
        proof {
            assert(rest.take(i as int).drop_last() =~= rest.take(i - 1));
            assert(rest.take(i as int).last() == words@[i as int]@);
        }
        if let Some(number) = parse_number(&words[i]) {
            neighbors.push(number);
        }
        i = i + 1;
    }
    assert(rest.take(i - 1) =~= rest);
    Some(NodeLine { node: parse_number(&words[0]), neighbors })
}

/// Reads the lines of a text in the text format. Empty lines and comments are passed over.
pub fn read_node_lines(text: &str) -> (described: Vec<NodeLine>)
    ensures
        line_views(described@) == node_lines(lines(text@)),
{
    let split = split_lines(&chars_of(text));
    let ghost all = lines(text@);
    let mut described: Vec<NodeLine> = Vec::new();
    let mut i: usize = 0;
    assert(all.take(0) =~= Seq::empty());
    assert(line_views(described@) =~= Seq::empty());
    while i < split.len()
        invariant
            i <= split@.len(),
            nested(split@) == all,
            line_views(described@) == node_lines(all.take(i as int)),
        decreases split.len() - i,
    {
        proof {
            assert(all.take(i + 1).drop_last() =~= all.take(i as int));
            assert(all.take(i + 1).last() == split@[i as int]@);
        }
        let ghost before = described@;
        if let Some(line) = read_node_line(&split_words(&split[i])) {
            described.push(line);
            assert(line_views(described@) =~= line_views(before).push(line@));
        }
        i = i + 1;
    }
    assert(all.take(i as int) =~= all);
    described
}

proof fn lemma_adjacency_step(lines: Seq<NodeLineView>, i: int)
    requires
        0 <= i < lines.len(),
    ensures
        adjacency_of(lines.take(i + 1)) == with_line(adjacency_of(lines.take(i)), lines[i]),
{
    assert(lines.take(i + 1).drop_last() =~= lines.take(i));
}

/// Tells whether the adjacency list that some lines describe has a length that a `usize` holds.
pub fn check_lines_fit(described: &Vec<NodeLine>) -> (fit: bool)
    ensures
        fit == lines_fit(line_views(described@)),
{
    let ghost all = line_views(described@);
    let mut count: usize = 0;
    let mut i: usize = 0;
    assert(all.take(0) =~= Seq::empty());
    while i < described.len()
        invariant
            i <= described@.len(),
            all == line_views(described@),
            count == adjacency_of(all.take(i as int)).len(),
            forall|j: int|
                0 <= j < i ==> node_of(#[trigger] all[j], adjacency_of(all.take(j)).len())
                    < usize::MAX,
        decreases described.len() - i,
    {
        proof {
            lemma_adjacency_step(all, i as int);
            assert(all[i as int] == described@[i as int]@);
        }
        let node: usize = match described[i].node {
            Some(node) => node,
            None => count,
        };
        if node == usize::MAX {
            return false;
        }
        if count <= node {
            count = node + 1;
        }
        i = i + 1;
    }
    true
}

/// Builds the adjacency list that some lines describe.
pub fn adjacency_from_lines(described: Vec<NodeLine>) -> (adj: AdjacencyList)
    requires
        lines_fit(line_views(described@)),
    ensures
        nested(adj@) == adjacency_of(line_views(described@)),
{
    let ghost all = line_views(described@);
    let mut adj: AdjacencyList = Vec::new();
    let mut i: usize = 0;
    assert(all.take(0) =~= Seq::empty());
    assert(nested(adj@) =~= Seq::<Seq<usize>>::empty());
    while i < described.len()
        invariant
            i <= described@.len(),
            all == line_views(described@),
            lines_fit(all),
            nested(adj@) == adjacency_of(all.take(i as int)),
        decreases described.len() - i,
    {
        let ghost before = nested(adj@);
        let ghost line = all[i as int];
        proof {
            lemma_adjacency_step(all, i as int);
            assert(line == described@[i as int]@);
        }
        let node: usize = match described[i].node {
            Some(node) => node,
            None => adj.len(),
        };
        while adj.len() <= node
            invariant
                node < usize::MAX,
                before.len() <= adj@.len(),
                adj@.len() <= node + 1 || adj@.len() == before.len(),
                forall|j: int| 0 <= j < before.len() ==> (#[trigger] adj@[j])@ == before[j],
                forall|j: int|
                    before.len() <= j < adj@.len() ==> (#[trigger] adj@[j])@ == Seq::<
                        usize,
                    >::empty(),
            decreases node + 1 - adj.len(),
        {
            adj.push(Vec::new());
        }
        adj[node] = described[i].neighbors.clone();
        assert(nested(adj@) =~= with_line(before, line));
        i = i + 1;
    }
    assert(all.take(i as int) =~= all);
    adj
}

/// Reads an adjacency list in the text format, in which each line is
/// `node_id neighbor1 neighbor2 ...`.
pub fn parse_text_adjacency(content: &str) -> (read: Result<AdjacencyList, AdjacencyError>)
    ensures
        adjacency_view(read) == text_adjacency(content@),
{
    let described = read_node_lines(content);
    assert(line_views(described@).len() == described@.len());
    if !check_lines_fit(&described) {
        return Err(AdjacencyError::TooManyNodes);
    }
    if described.is_empty() {
        return Err(AdjacencyError::Unreadable);
    }
    Ok(adjacency_from_lines(described))
}

/// Reads an adjacency list from the content of a file.
///
/// Expects either:
/// - A JSON array of arrays: `[[1,2],[0,2],[0,1],...]`
/// - A JSON object with a `"neighbors"` key containing the above
/// - A newline-delimited text where each line is `node_id neighbor1 neighbor2 ...`
pub fn load_adjacency(content: &str) -> (read: Result<AdjacencyList, AdjacencyError>)
    ensures
        adjacency_view(read) == adjacency(content@),
{
    if let Some(adj) = read_number_lists(content) {
        return Ok(adj);
    }
    if let Some(adj) = read_member_number_lists(content, "neighbors") {
        return Ok(adj);
    }
    parse_text_adjacency(content)
}

/// Writes an adjacency list as a JSON array of arrays.
pub fn adjacency_to_json(adj: &AdjacencyList) -> (content: String)
    ensures
        json_number_lists(content@, usize::MAX as nat) == Some(nested(adj@)),
{
    write_number_lists(adj)
}

/// Reading gives back the adjacency list that was written.
pub proof fn law_write_then_load(adj: Seq<Seq<usize>>, content: Seq<char>)
    requires
        json_number_lists(content, usize::MAX as nat) == Some(adj),
    ensures
        adjacency(content) == Ok::<Seq<Seq<usize>>, AdjacencyError>(adj),
{
}

} // verus!
