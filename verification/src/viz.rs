//! A textual rendering of the computation graph, for inspection: creations
//! print as `Data[id]`, operations as parenthesized infix expressions.

use crate::engine::Engine;
use crate::handle::LazyBufferHandle;
use crate::node::{CreationType, LazyBuffer, LazyOp};
use vstd::prelude::*;
use vstd::string::StringExecFns;

verus! {

/// The decimal digit character of one digit value.
pub open spec fn dec_digit(d: nat) -> char {
    if d == 0 {
        '0'
    } else if d == 1 {
        '1'
    } else if d == 2 {
        '2'
    } else if d == 3 {
        '3'
    } else if d == 4 {
        '4'
    } else if d == 5 {
        '5'
    } else if d == 6 {
        '6'
    } else if d == 7 {
        '7'
    } else if d == 8 {
        '8'
    } else {
        '9'
    }
}

/// The decimal rendering of a number, most significant digit first.
pub open spec fn dec_rep(n: nat) -> Seq<char>
    decreases n,
{
    if n < 10 {
        seq![dec_digit(n)]
    } else {
        dec_rep(n / 10).push(dec_digit(n % 10))
    }
}

/// One decimal digit as a string.
fn digit_string(d: usize) -> (r: String)
    requires
        d < 10,
    ensures
        r@ == seq![dec_digit(d as nat)],
{
    let r = match d {
        0 => "0",
        1 => "1",
        2 => "2",
        3 => "3",
        4 => "4",
        5 => "5",
        6 => "6",
        7 => "7",
        8 => "8",
        _ => "9",
    };
    proof {
        reveal_strlit("0");
        reveal_strlit("1");
        reveal_strlit("2");
        reveal_strlit("3");
        reveal_strlit("4");
        reveal_strlit("5");
        reveal_strlit("6");
        reveal_strlit("7");
        reveal_strlit("8");
        reveal_strlit("9");
        assert(r@ =~= seq![dec_digit(d as nat)]);
    }
    r.to_owned()
}

/// Decimal rendering, executable.
pub fn usize_to_string(n: usize) -> (r: String)
    ensures
        r@ == dec_rep(n as nat),
    decreases n,
{
    if n < 10 {
        digit_string(n)
    } else {
        let mut r = usize_to_string(n / 10);
        let d = digit_string(n % 10);
        r.append(d.as_str());
        proof {
            assert(r@ =~= dec_rep(n as nat));
        }
        r
    }
}

/// The rendering of the graph rooted at a node, to a recursion depth bounded
/// by the given fuel (a fuel of at least the registry size renders any
/// acyclic graph in full; an exhausted budget prints a hash mark).
pub open spec fn viz_spec(nodes: Seq<LazyBuffer>, i: int, fuel: nat) -> Seq<char>
    decreases fuel,
{
    if fuel == 0 {
        seq!['#']
    } else if !(0 <= i < nodes.len()) {
        seq!['?']
    } else {
        match nodes[i].operation {
            LazyOp::Creation(_) => seq!['D', 'a', 't', 'a', '['] + dec_rep(i as nat) + seq![']'],
            LazyOp::Clear(_) => seq!['C', 'l', 'e', 'a', 'r', '['] + dec_rep(i as nat)
                + seq![']'],
            LazyOp::Add(a, b) => seq!['('] + viz_spec(nodes, a.0 as int, (fuel - 1) as nat)
                + seq!['+'] + viz_spec(nodes, b.0 as int, (fuel - 1) as nat) + seq![')'],
            LazyOp::Subtract(a, b) => seq!['('] + viz_spec(nodes, a.0 as int, (fuel - 1) as nat)
                + seq!['-'] + viz_spec(nodes, b.0 as int, (fuel - 1) as nat) + seq![')'],
            LazyOp::Multiply(a, b) => seq!['('] + viz_spec(nodes, a.0 as int, (fuel - 1) as nat)
                + seq!['*'] + viz_spec(nodes, b.0 as int, (fuel - 1) as nat) + seq![')'],
            LazyOp::Divide(a, b) => seq!['('] + viz_spec(nodes, a.0 as int, (fuel - 1) as nat)
                + seq!['/'] + viz_spec(nodes, b.0 as int, (fuel - 1) as nat) + seq![')'],
            LazyOp::Memset(a, b) => seq!['('] + viz_spec(nodes, a.0 as int, (fuel - 1) as nat)
                + seq!['='] + viz_spec(nodes, b.0 as int, (fuel - 1) as nat) + seq![')'],
        }
    }
}

/// Render the graph rooted at a node index.
fn build_viz(engine: &Engine, i: usize, fuel: usize) -> (r: String)
    ensures
        r@ == viz_spec(engine.nodes@, i as int, fuel as nat),
    decreases fuel,
{
    proof {
        reveal_strlit("#");
        reveal_strlit("?");
        reveal_strlit("Data[");
        reveal_strlit("Clear[");
        reveal_strlit("]");
        reveal_strlit("(");
        reveal_strlit(")");
        reveal_strlit("+");
        reveal_strlit("-");
        reveal_strlit("*");
        reveal_strlit("/");
        reveal_strlit("=");
    }
    if fuel == 0 {
        let r = "#".to_owned();
        proof {
            assert(r@ =~= viz_spec(engine.nodes@, i as int, fuel as nat));
        }
        r
    } else if i >= engine.nodes.len() {
        let r = "?".to_owned();
        proof {
            assert(r@ =~= viz_spec(engine.nodes@, i as int, fuel as nat));
        }
        r
    } else {
        let (tag, ah, bh): (u8, usize, usize) = match &engine.nodes[i].operation {
            LazyOp::Creation(_) => (0u8, 0usize, 0usize),
            LazyOp::Clear(_) => (1u8, 0usize, 0usize),
            LazyOp::Add(a, b) => (2u8, a.0, b.0),
            LazyOp::Subtract(a, b) => (3u8, a.0, b.0),
            LazyOp::Multiply(a, b) => (4u8, a.0, b.0),
            LazyOp::Divide(a, b) => (5u8, a.0, b.0),
            LazyOp::Memset(a, b) => (6u8, a.0, b.0),
        };
        if tag == 0u8 {
            let mut r = "Data[".to_owned();
            let digits = usize_to_string(i);
            r.append(digits.as_str());
            r.append("]");
            proof {
                assert(r@ =~= viz_spec(engine.nodes@, i as int, fuel as nat));
            }
            r
        } else if tag == 1u8 {
            let mut r = "Clear[".to_owned();
            let digits = usize_to_string(i);
            r.append(digits.as_str());
            r.append("]");
            proof {
                assert(r@ =~= viz_spec(engine.nodes@, i as int, fuel as nat));
            }
            r
        } else {
            let mut r = "(".to_owned();
            let left = build_viz(engine, ah, fuel - 1);
            r.append(left.as_str());
            if tag == 2u8 {
                r.append("+");
            } else if tag == 3u8 {
                r.append("-");
            } else if tag == 4u8 {
                r.append("*");
            } else if tag == 5u8 {
                r.append("/");
            } else {
                r.append("=");
            }
            let right = build_viz(engine, bh, fuel - 1);
            r.append(right.as_str());
            r.append(")");
            proof {
                assert(r@ =~= viz_spec(engine.nodes@, i as int, fuel as nat));
            }
            r
        }
    }
}

impl LazyBuffer {
    /// Render this node's graph, to a depth bounded by the registry size.
    pub fn get_comp_graph_viz(&self, engine: &Engine) -> (r: String)
        ensures
            r@ == viz_spec(engine.nodes@, self.id.0 as int, engine.nodes@.len()),
    {
        build_viz(engine, self.id.0, engine.nodes.len())
    }
}

impl LazyBufferHandle {
    /// Render the graph rooted at this handle, to a depth bounded by the
    /// registry size.
    pub fn get_comp_graph_viz(&self, engine: &Engine) -> (r: String)
        ensures
            r@ == viz_spec(engine.nodes@, self.0 as int, engine.nodes@.len()),
    {
        build_viz(engine, self.0, engine.nodes.len())
    }
}

} // verus!
