//! What is asked of a chart: the measurement it shows and the filter that
//! chooses its series.

use crate::filter::{filter_text, mistyped, parse_filter, well_typed, FilterSet, ParameterFilterSet};
use crate::text::{pieces, Text};
use vstd::prelude::*;
use vstd::string::*;

verus! {

/// The measurement that a chart shows.
#[derive(Debug, Clone, Copy, PartialEq, Eq, Structural)]
pub enum ChartType {
    CommitTime,
    CommitsPerSecond,
    QueriesPerSecond,
}

impl ChartType {
    /// The word that chooses the measurement on the command line.
    pub open spec fn keyword(self) -> Text {
        match self {
            ChartType::CommitTime => "commit-time"@,
            ChartType::CommitsPerSecond => "commits-per-second"@,
            ChartType::QueriesPerSecond => "queries-per-second"@,
        }
    }

    /// The heading of a chart of the measurement.
    pub open spec fn heading(self) -> Text {
        match self {
            ChartType::CommitTime => "Commit Time"@,
            ChartType::CommitsPerSecond => "Commits per Second"@,
            ChartType::QueriesPerSecond => "Queries per Second"@,
        }
    }

    /// The measurement that `text` chooses, if it is the keyword of one.
    pub open spec fn from_keyword(text: Text) -> Option<ChartType> {
        if text == ChartType::CommitTime.keyword() {
            Some(ChartType::CommitTime)
        } else if text == ChartType::CommitsPerSecond.keyword() {
            Some(ChartType::CommitsPerSecond)
        } else if text == ChartType::QueriesPerSecond.keyword() {
            Some(ChartType::QueriesPerSecond)
        } else {
            None
        }
    }

    /// The measurement that `text` chooses, if it is the keyword of one.
    pub fn get_from_string(text: &String) -> (r: Option<ChartType>)
        ensures
            r == ChartType::from_keyword(text@),
    {
        if *text == "commit-time".to_owned() {
            Some(ChartType::CommitTime)
        } else if *text == "commits-per-second".to_owned() {
            Some(ChartType::CommitsPerSecond)
        } else if *text == "queries-per-second".to_owned() {
            Some(ChartType::QueriesPerSecond)
        } else {
            None
        }
    }

    /// The heading of a chart of the measurement.
    pub fn title(&self) -> (r: String)
        ensures
            r@ == self.heading(),
    {
        match self {
            ChartType::CommitTime => "Commit Time".to_owned(),
            ChartType::CommitsPerSecond => "Commits per Second".to_owned(),
            ChartType::QueriesPerSecond => "Queries per Second".to_owned(),
        }
    }
}

/// One chart: a measurement and the filter that chooses its series.
#[derive(Debug)]
pub struct ChartSpec {
    pub chart_type: ChartType,
    pub filters: ParameterFilterSet,
}

/// The title of a chart: the heading of its measurement, followed in
/// brackets by the text of its filter where the filter has predicates.
pub open spec fn chart_title(chart_type: ChartType, filter: Text) -> Text {
    if filter.len() > 0 {
        chart_type.heading() + seq![' ', '('] + filter + seq![')']
    } else {
        chart_type.heading()
    }
}

impl ChartSpec {
    /// The title of the chart.
    pub fn title(&self) -> (r: String)
        ensures
            r@ == chart_title(self.chart_type, filter_text(self.filters@)),
    {
        let mut title = self.chart_type.title();
        let filter = self.filters.display_text();
        if !filter.as_str().is_empty() {
            proof {
                reveal_strlit(" (");
                reveal_strlit(")");
            }
            title.append(" (");
            title.append(filter.as_str());
            title.append(")");
            assert(" ("@ =~= seq![' ', '(']);
            assert(")"@ =~= seq![')']);
        }
        title
    }
}

/// The side of one chart, in pixels, by the size of the image.
pub open spec fn chart_side(small_image: bool) -> u32 {
    if small_image {
        1080
    } else {
        2160
    }
}

/// How the charts of an image are laid out, as rows and columns: up to
/// three side by side, more in two rows of two.
pub open spec fn grid_of(charts: nat) -> (u32, u32) {
    if charts <= 1 {
        (1, 1)
    } else if charts == 2 {
        (1, 2)
    } else if charts == 3 {
        (1, 3)
    } else {
        (2, 2)
    }
}

/// How the charts of an image are laid out, as rows and columns.
pub fn chart_grid(charts: usize) -> (r: (u32, u32))
    ensures
        r == grid_of(charts as nat),
{
    if charts <= 1 {
        (1, 1)
    } else if charts == 2 {
        (1, 2)
    } else if charts == 3 {
        (1, 3)
    } else {
        (2, 2)
    }
}

/// The width and height of the image, in pixels: the grid of its charts,
/// each a square.
pub fn image_size(charts: usize, small_image: bool) -> (r: (u32, u32))
    ensures
        r.0 == chart_side(small_image) * grid_of(charts as nat).1,
        r.1 == chart_side(small_image) * grid_of(charts as nat).0,
{
    let side: u32 = if small_image {
        1080
    } else {
        2160
    };
    let (rows, columns) = chart_grid(charts);
    (side * columns, side * rows)
}

/// What the charts of one image are drawn from.
#[derive(Debug)]
pub struct Params {
    pub stroke_width: u64,
    pub chart_specs: Vec<ChartSpec>,
}

/// Why no charts can be made: the filter clause of the chart at index
/// `chart` compares a flag by an inequality in its term at index `term`.
#[derive(Debug, Clone, Copy, PartialEq, Eq, Structural)]
pub struct ChartError {
    pub chart: usize,
    pub term: usize,
}

/// The filter clause of the chart at place `i`: the clause at that place,
/// and the empty clause where there are fewer clauses than charts.
pub open spec fn clause_of(filters: Seq<Text>, i: int) -> Text {
    if 0 <= i < filters.len() {
        filters[i]
    } else {
        Seq::empty()
    }
}

/// The texts of the clauses.
pub open spec fn clause_texts(filters: Seq<String>) -> Seq<Text> {
    filters.map_values(|s: String| s@)
}

impl Params {
    /// The width of a stroke, in pixels, by the size of the image.
    pub open spec fn stroke_width_for(small_image: bool) -> u64 {
        if small_image {
            1
        } else {
            2
        }
    }

    /// Pairs each measurement with the filter clause at its place, and with
    /// the empty clause where the clauses run out. Fails at the first chart
    /// whose clause compares a flag by an inequality.
    pub fn new(chart_types: &Vec<ChartType>, chart_filters: &Vec<String>, small_image: bool) -> (r: Result<Params, ChartError>)
        ensures
            match r {
                Ok(p) => {
                    &&& p.stroke_width == Params::stroke_width_for(small_image)
                    &&& p.chart_specs@.len() == chart_types@.len()
                    &&& forall|i: int|
                        0 <= i < chart_types@.len() ==> {
                            &&& (#[trigger] p.chart_specs@[i]).chart_type == chart_types@[i]
                            &&& p.chart_specs@[i].filters@ == parse_filter(
                                clause_of(clause_texts(chart_filters@), i),
                            )
                            &&& well_typed(clause_of(clause_texts(chart_filters@), i))
                        }
                },
                Err(e) => {
                    &&& e.chart < chart_types@.len()
                    &&& e.term < pieces(clause_of(clause_texts(chart_filters@), e.chart as int)).len()
                    &&& mistyped(
                        pieces(clause_of(clause_texts(chart_filters@), e.chart as int))[e.term as int],
                    )
                    &&& forall|j: int|
                        0 <= j < e.term ==> !mistyped(
                            #[trigger] pieces(
                                clause_of(clause_texts(chart_filters@), e.chart as int),
                            )[j],
                        )
                    &&& forall|i: int|
                        0 <= i < e.chart ==> well_typed(
                            #[trigger] clause_of(clause_texts(chart_filters@), i),
                        )
                },
            },
    {
        let stroke_width: u64 = if small_image {
            1
        } else {
            2
        };
        let mut chart_specs: Vec<ChartSpec> = Vec::new();
        let mut i: usize = 0;
        while i < chart_types.len()
            invariant
                i <= chart_types@.len(),
                chart_specs@.len() == i,
                forall|k: int|
                    0 <= k < i ==> {
                        &&& (#[trigger] chart_specs@[k]).chart_type == chart_types@[k]
                        &&& chart_specs@[k].filters@ == parse_filter(
                            clause_of(clause_texts(chart_filters@), k),
                        )
                        &&& well_typed(clause_of(clause_texts(chart_filters@), k))
                    },
                forall|k: int|
                    0 <= k < i ==> well_typed(#[trigger] clause_of(clause_texts(chart_filters@), k)),
            decreases chart_types@.len() - i,
        {
            let clause = if i < chart_filters.len() {
                chart_filters[i].clone()
            } else {
                String::new()
            };
            assert(clause@ == clause_of(clause_texts(chart_filters@), i as int));
            match ParameterFilterSet::try_new(&clause) {
                Ok(filters) => {
                    chart_specs.push(ChartSpec { chart_type: chart_types[i], filters });
                },
                Err(e) => {
                    return Err(ChartError { chart: i, term: e.term });
                },
            }
            i = i + 1;
        }
        Ok(Params { stroke_width, chart_specs })
    }
}

} // verus!
