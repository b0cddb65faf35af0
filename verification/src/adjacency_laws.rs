//! Laws of the text format of adjacency lists.

use vstd::prelude::*;

use crate::adjacency::{
    adjacency, adjacency_of, lines_fit, node_line, node_lines, node_of, numbers_among,
    text_adjacency, with_line, AdjacencyError, NodeLineView,
};
use crate::json::{json_member_number_lists, json_number_lists};
use crate::text::{
    decimal, is_digit, law_decimal_round_trip, lemma_decimal, lines, parsed_number, white_space,
    without_plus, words,
};
use crate::text_laws::{
    law_last_line, law_line_feed_ends_a_line, law_one_word, law_white_space_parts_words,
};

verus! {

/// The numbers among some words are the words that denote numbers, all of them, in order.
pub proof fn law_numbers_in_order(words: Seq<Seq<char>>)
    ensures
        numbers_among(words) == words.filter_map(|word: Seq<char>| parsed_number(word)),
    decreases words.len(),
{
    let parse = |word: Seq<char>| parsed_number(word);
    if words.len() > 0 {
        law_numbers_in_order(words.drop_last());
        assert(numbers_among(words) =~= words.filter_map(parse));
    } else {
        assert(numbers_among(words) =~= words.filter_map(parse));
    }
}

/// Where every word denotes a number, the numbers are those, word by word.
pub proof fn law_words_that_are_numbers(words: Seq<Seq<char>>, numbers: Seq<usize>)
    requires
        words.len() == numbers.len(),
        forall|p: int|
            0 <= p < words.len() ==> parsed_number(#[trigger] words[p]) == Some(numbers[p]),
    ensures
        numbers_among(words) == numbers,
    decreases words.len(),
{
    if words.len() > 0 {
        let init = words.drop_last();
        assert forall|p: int| 0 <= p < init.len() implies parsed_number(#[trigger] init[p]) == Some(
            numbers.drop_last()[p],
        ) by {
            assert(init[p] == words[p]);
        }
        law_words_that_are_numbers(init, numbers.drop_last());
        assert(parsed_number(words[words.len() - 1]) == Some(numbers[words.len() - 1]));
        assert(numbers_among(words) =~= numbers);
    } else {
        assert(numbers_among(words) =~= numbers);
    }
}

/// A line of `m + 1` numbers describes the first as a node with `m` neighbors, the `p`-th of them
/// being the `p + 1`-st of the line.
pub proof fn law_line_of_numbers(words: Seq<Seq<char>>, numbers: Seq<usize>)
    requires
        words.len() == numbers.len(),
        words.len() > 0,
        forall|p: int|
            0 <= p < words.len() ==> parsed_number(#[trigger] words[p]) == Some(numbers[p]),
    ensures
        node_line(words) matches Some(line) && {
            &&& line.node == Some(numbers[0])
            &&& line.neighbors.len() == numbers.len() - 1
            &&& forall|p: int|
                0 <= p < line.neighbors.len() ==> #[trigger] line.neighbors[p] == numbers[p + 1]
        },
{
    let first = words[0];
    assert(parsed_number(first) == Some(numbers[0]));
    if first.len() > 0 && first[0] == '#' {
        assert(without_plus(first) == first);
        assert(is_digit(first[0]));
    }
    let rest = words.skip(1);
    assert forall|p: int| 0 <= p < rest.len() implies parsed_number(#[trigger] rest[p]) == Some(
        numbers.skip(1)[p],
    ) by {
        assert(rest[p] == words[p + 1]);
    }
    law_words_that_are_numbers(rest, numbers.skip(1));
}

/// A line says nothing if and only if it has no word or its first word begins with `#`. Otherwise
/// its first word tells the node, if it denotes a number, and the numbers among the others are the
/// neighbors.
pub proof fn law_line_says(words: Seq<Seq<char>>)
    ensures
        words.len() == 0 ==> node_line(words) is None,
        words.len() > 0 && words[0].len() > 0 && words[0][0] == '#' ==> node_line(words) is None,
        words.len() > 0 && !(words[0].len() > 0 && words[0][0] == '#') ==> {
            &&& node_line(words) matches Some(line)
            &&& line.node == parsed_number(words[0])
            &&& line.neighbors == words.skip(1).filter_map(
                |word: Seq<char>| parsed_number(word),
            )
        },
{
    law_numbers_in_order(words.skip(1));
}

/// The lines of a text are taken in order, each for what it says, and those that say nothing are
/// passed over.
pub proof fn law_lines_in_order(lines: Seq<Seq<char>>)
    ensures
        node_lines(lines) == lines.filter_map(|line: Seq<char>| node_line(words(line))),
    decreases lines.len(),
{
    let read = |line: Seq<char>| node_line(words(line));
    if lines.len() > 0 {
        law_lines_in_order(lines.drop_last());
        assert(node_lines(lines) =~= lines.filter_map(read));
    } else {
        assert(node_lines(lines) =~= lines.filter_map(read));
    }
}

/// A line that names a node gives that node its neighbors, whatever it had, and leaves all others
/// as they are. Where the node is past the last one, the nodes in between have no neighbors.
pub proof fn law_named_line(described: Seq<NodeLineView>, line: NodeLineView, node: usize)
    requires
        line.node == Some(node),
    ensures
        adjacency_of(described.push(line)).len() >= adjacency_of(described).len(),
        adjacency_of(described.push(line)).len() > node,
        adjacency_of(described.push(line)).len() == adjacency_of(described).len() || adjacency_of(
            described.push(line),
        ).len() == node + 1,
        adjacency_of(described.push(line))[node as int] == line.neighbors,
        forall|i: int|
            0 <= i < adjacency_of(described).len() && i != node ==> #[trigger] adjacency_of(
                described.push(line),
            )[i] == adjacency_of(described)[i],
        forall|i: int|
            adjacency_of(described).len() <= i < node ==> (#[trigger] adjacency_of(
                described.push(line),
            )[i]).len() == 0,
{
    assert(described.push(line).drop_last() =~= described);
}

/// A line that names no node describes the next one.
pub proof fn law_unnamed_line(described: Seq<NodeLineView>, line: NodeLineView)
    requires
        line.node is None,
    ensures
        adjacency_of(described.push(line)) == adjacency_of(described).push(line.neighbors),
        adjacency_of(Seq::empty()).len() == 0,
{
    assert(described.push(line).drop_last() =~= described);
    assert(adjacency_of(described.push(line)) =~= adjacency_of(described).push(line.neighbors));
}

/// Where every line that says something names a node that is not the last that there can be, a text
/// is read, unless it has no such line.
pub proof fn law_text_is_read(content: Seq<char>)
    requires
        forall|i: int|
            0 <= i < node_lines(lines(content)).len() ==> {
                &&& (#[trigger] node_lines(lines(content))[i]).node matches Some(node)
                &&& node < usize::MAX
            },
    ensures
        node_lines(lines(content)).len() > 0 ==> text_adjacency(content) == Ok::<
            Seq<Seq<usize>>,
            AdjacencyError,
        >(adjacency_of(node_lines(lines(content)))),
        node_lines(lines(content)).len() == 0 ==> text_adjacency(content) == Err::<
            Seq<Seq<usize>>,
            AdjacencyError,
        >(AdjacencyError::Unreadable),
{
    let described = node_lines(lines(content));
    assert forall|i: int| 0 <= i < described.len() implies node_of(
        #[trigger] described[i],
        adjacency_of(described.take(i)).len(),
    ) < usize::MAX by {}
}

/// A content is read as an array of arrays if it holds one, else as the member `neighbors` of an
/// object if it holds that, and else as text.
pub proof fn law_formats(content: Seq<char>)
    ensures
        json_number_lists(content, usize::MAX as nat) matches Some(lists) ==> adjacency(content)
            == Ok::<Seq<Seq<usize>>, AdjacencyError>(lists),
        json_number_lists(content, usize::MAX as nat) is None ==> (json_member_number_lists(
            content,
            "neighbors"@,
            usize::MAX as nat,
        ) matches Some(lists) ==> adjacency(content) == Ok::<Seq<Seq<usize>>, AdjacencyError>(
            lists,
        )),
        json_number_lists(content, usize::MAX as nat) is None && json_member_number_lists(
            content,
            "neighbors"@,
            usize::MAX as nat,
        ) is None ==> adjacency(content) == text_adjacency(content),
{
}

proof fn lemma_described(adj: Seq<Seq<usize>>, described: Seq<NodeLineView>, m: nat)
    requires
        adj.len() <= usize::MAX,
        described.len() == adj.len(),
        forall|i: int|
            0 <= i < adj.len() ==> #[trigger] described[i] == (NodeLineView {
                node: Some(i as usize),
                neighbors: adj[i],
            }),
        m <= adj.len(),
    ensures
        adjacency_of(described.take(m as int)) == adj.take(m as int),
    decreases m,
{
    if m == 0 {
        assert(described.take(0) =~= Seq::empty());
        assert(adj.take(0) =~= Seq::empty());
    } else {
        lemma_described(adj, described, (m - 1) as nat);
        assert(described.take(m as int).drop_last() =~= described.take(m - 1));
        assert(described.take(m as int).last() == described[m - 1]);
        assert(with_line(adj.take(m - 1), described[m - 1]) =~= adj.take(m as int));
    }
}

proof fn lemma_each_line(split: Seq<Seq<char>>, described: Seq<NodeLineView>)
    requires
        split.len() == described.len(),
        forall|i: int|
            0 <= i < split.len() ==> node_line(words(#[trigger] split[i])) == Some(described[i]),
    ensures
        node_lines(split) == described,
    decreases split.len(),
{
    if split.len() > 0 {
        let init = split.drop_last();
        assert forall|i: int| 0 <= i < init.len() implies node_line(words(#[trigger] init[i]))
            == Some(described.drop_last()[i]) by {
            assert(init[i] == split[i]);
        }
        lemma_each_line(init, described.drop_last());
        assert(node_line(words(split[split.len() - 1])) == Some(described[split.len() - 1]));
        assert(node_lines(split) =~= described);
    } else {
        assert(node_lines(split) =~= described);
    }
}

/// A text with one line per node, in which the first word denotes the node and the others its
/// neighbors, is read as those nodes with those neighbors.
pub proof fn law_lines_of_numbers_are_read(adj: Seq<Seq<usize>>, content: Seq<char>)
    requires
        0 < adj.len() <= usize::MAX,
        lines(content).len() == adj.len(),
        forall|i: int|
            0 <= i < adj.len() ==> {
                &&& words(#[trigger] lines(content)[i]).len() == adj[i].len() + 1
                &&& parsed_number(words(lines(content)[i])[0]) == Some(i as usize)
                &&& forall|p: int|
                    0 <= p < adj[i].len() ==> parsed_number(words(lines(content)[i])[p + 1])
                        == Some(#[trigger] adj[i][p])
            },
    ensures
        text_adjacency(content) == Ok::<Seq<Seq<usize>>, AdjacencyError>(adj),
{
    let split = lines(content);
    let described = Seq::new(
        adj.len(),
        |i: int| NodeLineView { node: Some(i as usize), neighbors: adj[i] },
    );
    assert forall|i: int| 0 <= i < split.len() implies node_line(words(#[trigger] split[i]))
        == Some(described[i]) by {
        let parts = words(split[i]);
        let numbers = seq![i as usize] + adj[i];
        assert forall|p: int| 0 <= p < parts.len() implies parsed_number(#[trigger] parts[p])
            == Some(numbers[p]) by {
            if p > 0 {
                assert(numbers[p] == adj[i][p - 1]);
            }
        }
        law_line_of_numbers(parts, numbers);
        let line = node_line(parts).unwrap();
        assert(line.neighbors =~= adj[i]) by {
            assert forall|p: int| 0 <= p < adj[i].len() implies line.neighbors[p] == adj[i][p] by {
                assert(line.neighbors[p] == numbers[p + 1]);
            }
        }
    }
    lemma_each_line(split, described);
    lemma_described(adj, described, adj.len());
    assert(described.take(adj.len() as int) =~= described);
    assert(adj.take(adj.len() as int) =~= adj);
    assert(lines_fit(described)) by {
        assert forall|i: int| 0 <= i < described.len() implies node_of(
            #[trigger] described[i],
            adjacency_of(described.take(i)).len(),
        ) < usize::MAX by {}
    }
}

/// A line with a node and its neighbors in decimal, separated by spaces.
pub open spec fn written_line(node: nat, neighbors: Seq<usize>) -> Seq<char>
    decreases neighbors.len(),
{
    if neighbors.len() == 0 {
        decimal(node)
    } else {
        written_line(node, neighbors.drop_last()).push(' ') + decimal(neighbors.last() as nat)
    }
}

/// A text with a line for each node from `start` on, each ended by a line feed.
pub open spec fn written_text(adj: Seq<Seq<usize>>, start: nat) -> Seq<char>
    decreases adj.len() - start,
{
    if start >= adj.len() {
        Seq::empty()
    } else {
        written_line(start, adj[start as int]).push('\n') + written_text(adj, (start + 1) as nat)
    }
}

proof fn lemma_decimal_word(number: nat)
    ensures
        words(decimal(number)) == seq![decimal(number)],
{
    lemma_decimal(number);
    assert forall|i: int| 0 <= i < decimal(number).len() implies !white_space(
        #[trigger] decimal(number)[i],
    ) by {
        assert(is_digit(decimal(number)[i]));
    }
    law_one_word(decimal(number));
}

proof fn lemma_written_line(node: nat, neighbors: Seq<usize>)
    ensures
        words(written_line(node, neighbors)) == seq![decimal(node)] + neighbors.map_values(
            |x: usize| decimal(x as nat),
        ),
        written_line(node, neighbors).len() > 0,
        forall|i: int|
            0 <= i < written_line(node, neighbors).len() ==> is_digit(
                #[trigger] written_line(node, neighbors)[i],
            ) || written_line(node, neighbors)[i] == ' ',
    decreases neighbors.len(),
{
    let line = written_line(node, neighbors);
    let texts = neighbors.map_values(|x: usize| decimal(x as nat));
    lemma_decimal_word(node);
    lemma_decimal(node);
    if neighbors.len() == 0 {
        assert(seq![decimal(node)] + texts =~= seq![decimal(node)]);
    } else {
        let init = neighbors.drop_last();
        let last = decimal(neighbors.last() as nat);
        let before = written_line(node, init);
        lemma_written_line(node, init);
        lemma_decimal_word(neighbors.last() as nat);
        lemma_decimal(neighbors.last() as nat);
        law_white_space_parts_words(before, ' ', last);
        assert(seq![decimal(node)] + texts =~= (seq![decimal(node)] + init.map_values(
            |x: usize| decimal(x as nat),
        )) + seq![last]);
        assert forall|i: int| 0 <= i < line.len() implies is_digit(#[trigger] line[i]) || line[i]
            == ' ' by {
            if i < before.len() {
                assert(line[i] == before[i]);
            } else if i > before.len() {
                assert(line[i] == last[i - before.len() - 1]);
            }
        }
    }
}

proof fn lemma_written_text(adj: Seq<Seq<usize>>, start: nat)
    requires
        start <= adj.len(),
    ensures
        lines(written_text(adj, start)) == Seq::new(
            (adj.len() - start) as nat,
            |k: int| written_line((start + k) as nat, adj[start + k]),
        ),
    decreases adj.len() - start,
{
    let all = Seq::new(
        (adj.len() - start) as nat,
        |k: int| written_line((start + k) as nat, adj[start + k]),
    );
    if start == adj.len() {
        law_last_line(written_text(adj, start));
        assert(lines(written_text(adj, start)) =~= all);
    } else {
        let line = written_line(start, adj[start as int]);
        let rest = written_text(adj, (start + 1) as nat);
        lemma_written_line(start, adj[start as int]);
        lemma_written_text(adj, (start + 1) as nat);
        assert forall|i: int| 0 <= i < line.len() implies (#[trigger] line[i]) != '\n' by {}
        assert(line.last() == line[line.len() - 1]);
        law_line_feed_ends_a_line(line, rest);
        assert(lines(written_text(adj, start)) =~= all);
    }
}

/// Reading gives back an adjacency list that was written as text, one line of a node and its
/// neighbors for each node.
pub proof fn law_text_round_trip(adj: Seq<Seq<usize>>)
    requires
        0 < adj.len() <= usize::MAX,
    ensures
        text_adjacency(written_text(adj, 0)) == Ok::<Seq<Seq<usize>>, AdjacencyError>(adj),
{
    let content = written_text(adj, 0);
    lemma_written_text(adj, 0);
    assert forall|i: int| 0 <= i < adj.len() implies {
        &&& words(#[trigger] lines(content)[i]).len() == adj[i].len() + 1
        &&& parsed_number(words(lines(content)[i])[0]) == Some(i as usize)
        &&& forall|p: int|
            0 <= p < adj[i].len() ==> parsed_number(words(lines(content)[i])[p + 1]) == Some(
                #[trigger] adj[i][p],
            )
    } by {
        assert(lines(content)[i] == written_line(i as nat, adj[i]));
        lemma_written_line(i as nat, adj[i]);
        law_decimal_round_trip(i as usize);
        assert forall|p: int| 0 <= p < adj[i].len() implies parsed_number(
            words(lines(content)[i])[p + 1],
        ) == Some(#[trigger] adj[i][p]) by {
            law_decimal_round_trip(adj[i][p]);
            assert(words(lines(content)[i])[p + 1] == decimal(adj[i][p] as nat));
        }
    }
    law_lines_of_numbers_are_read(adj, content);
}

} // verus!
