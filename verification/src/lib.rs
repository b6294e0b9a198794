//! Turns a small textual notation of directed relations ("A -> B") into a
//! fixed-width character picture: one box per entity, one elbow arrow per
//! relation.

use vstd::prelude::*;

pub mod canvas;
pub mod domain;
pub mod input;
pub mod layout;
pub mod style;
pub mod text;

pub use canvas::{Canvas, Point};
pub use domain::{Arrow, Diagram, Node};
pub use input::read_input;
pub use layout::{Graph, NodeApproximation, PointApproximation, RoundedPoint};
pub use style::{ArrowBody, ArrowHead, BorderType};

verus! {

/// The picture of the relations in `input`, with the layout that `settled`
/// gives: the rounded position at which each node has come to rest, node by
/// node in the order in which the names first occur. An input with a line
/// that is no relation gives the complaint about the first such line, and
/// no picture.
pub fn get_graph(input: &str, settled: &Vec<RoundedPoint>) -> (output: Result<String, String>)
    requires
        input::first_complaint(text::lines_of(input@)) is None ==> input::layout_usable(
            input::relations_in(text::lines_of(input@)),
            settled@,
        ),
    ensures
        match output {
            Ok(picture) => {
                &&& input::first_complaint(text::lines_of(input@)) is None
                &&& picture@ == domain::picture(
                    domain::paint_arrows(
                        domain::paint_nodes(
                            input::boxes_in(input::relations_in(text::lines_of(input@)), settled@),
                        ),
                        input::arrows_in(input::relations_in(text::lines_of(input@)), settled@),
                    ),
                )
            },
            Err(complaint) => input::first_complaint(text::lines_of(input@)) == Some(complaint@),
        },
{
    let map = match input::read_input(input, settled) {
        Ok(map) => map,
        Err(complaint) => {
            return Err(complaint);
        },
    };
    proof {
        let relations = input::relations_in(text::lines_of(input@));
        let boxes = map.boxes();
        assert forall|i: int| 0 <= i < map.nodes@.len() implies (#[trigger] map.nodes@[i]).1.fits(
            map.nodes@[i].0,
        ) by {
            assert(boxes[i] == (map.nodes@[i].0, map.nodes@[i].1@));
        }
        input::lemma_boxes_of_layout(relations, settled@);
    }
    Ok(map.get_picture())
}

/// The picture of the relations in `input` where `settled` can serve as
/// their layout, and the complaint about the first line that is no
/// relation where there is one. None where every line is a relation and
/// `settled` cannot serve: it has not one position for each node, there is
/// no node, two nodes are at one position, or the picture leaves the grid.
pub fn draw(input: &str, settled: &Vec<RoundedPoint>) -> (output: Option<Result<String, String>>)
    ensures
        output is None <==> input::first_complaint(text::lines_of(input@)) is None
            && !input::layout_usable(input::relations_in(text::lines_of(input@)), settled@),
        match output {
            Some(Ok(picture)) => picture@ == domain::picture(
                domain::paint_arrows(
                    domain::paint_nodes(
                        input::boxes_in(input::relations_in(text::lines_of(input@)), settled@),
                    ),
                    input::arrows_in(input::relations_in(text::lines_of(input@)), settled@),
                ),
            ),
            Some(Err(complaint)) => input::first_complaint(text::lines_of(input@)) == Some(
                complaint@,
            ),
            None => true,
        },
{
    match input::read_relations(input) {
        Ok(inner_mapping) => {
            if input::usable_layout(&inner_mapping, settled) {
                Some(get_graph(input, settled))
            } else {
                None
            }
        },
        Err(complaint) => Some(Err(complaint)),
    }
}

} // verus!
