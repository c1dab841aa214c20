//! The script as the code generator takes it: named procedures, each an
//! ordered sequence of commands.

use crate::document::{is_tag, nodes_view, pairs_view, trimmed, FormatError, Node, NodeView};
use crate::tables::{
    distinct_keys, inserted, lemma_inserted, proc_entries, procs_insert, procs_new,
};
use linked_hash_map::LinkedHashMap;
use vstd::prelude::*;

verus! {

/// One command of a script.
#[derive(Debug, PartialEq, Eq)]
pub enum Ast {
    /// Show a message.
    Msg(String),
    /// Offer a choice; each branch has a label and a sequence of commands.
    Choice(Vec<(String, Vec<Ast>)>),
    /// Wait for the user.
    Wait,
    /// Call the procedure of that name.
    Call(String),
}

/// What an [`Ast`] stands for in contracts.
pub enum AstView {
    Msg(Seq<char>),
    Choice(Seq<(Seq<char>, Seq<AstView>)>),
    Wait,
    Call(Seq<char>),
}

impl View for Ast {
    type V = AstView;

    open spec fn view(&self) -> AstView
        decreases self,
    {
        match self {
            Ast::Msg(text) => AstView::Msg(text@),
            Ast::Choice(branches) => AstView::Choice(branches_view(branches@)),
            Ast::Wait => AstView::Wait,
            Ast::Call(name) => AstView::Call(name@),
        }
    }
}

/// The views of the branches of a choice, in order.
pub open spec fn branches_view(branches: Seq<(String, Vec<Ast>)>) -> Seq<(Seq<char>, Seq<AstView>)>
    decreases branches,
{
    Seq::new(
        branches.len(),
        |i: int|
            if 0 <= i < branches.len() {
                (branches[i].0@, block_view(branches[i].1@))
            } else {
                (Seq::empty(), Seq::empty())
            },
    )
}

/// The views of a sequence of commands, in order.
pub open spec fn block_view(commands: Seq<Ast>) -> Seq<AstView>
    decreases commands,
{
    Seq::new(
        commands.len(),
        |i: int|
            if 0 <= i < commands.len() {
                commands[i].view()
            } else {
                AstView::Wait
            },
    )
}

/// A script: its procedures by name, in the order in which they were
/// written.
pub struct File {
    pub procs: LinkedHashMap<String, Vec<Ast>>,
}

impl View for File {
    type V = Seq<(Seq<char>, Seq<AstView>)>;

    /// The procedures in order, each with its name and its commands.
    open spec fn view(&self) -> Seq<(Seq<char>, Seq<AstView>)> {
        proc_entries(self.procs)
    }
}

/// The command that a value of a script stands for: the bare tag `wait`;
/// or a mapping with the one key `print` or `call`, whose value is a text;
/// or a mapping with the one key `choose`, whose value is an array of
/// branches. White space around a tag does not count.
pub open spec fn parse_command(node: NodeView) -> Result<AstView, FormatError>
    decreases node, 0nat,
{
    match node {
        NodeView::String(tag) => if trimmed(tag) == "wait"@ {
            Ok(AstView::Wait)
        } else {
            Err(FormatError::UnknownTag)
        },
        NodeView::Hash(pairs) => if pairs.len() != 1 {
            Err(FormatError::WrongKeyArity)
        } else {
            match pairs[0].0 {
                NodeView::String(tag) => if trimmed(tag) == "print"@ {
                    match pairs[0].1 {
                        NodeView::String(text) => Ok(AstView::Msg(text)),
                        _ => Err(FormatError::Malformed),
                    }
                } else if trimmed(tag) == "call"@ {
                    match pairs[0].1 {
                        NodeView::String(name) => Ok(AstView::Call(name)),
                        _ => Err(FormatError::Malformed),
                    }
                } else if trimmed(tag) == "choose"@ {
                    match pairs[0].1 {
                        NodeView::Array(options) => match parse_branches(options) {
                            Ok(branches) => Ok(AstView::Choice(branches)),
                            Err(error) => Err(error),
                        },
                        _ => Err(FormatError::Malformed),
                    }
                } else {
                    Err(FormatError::UnknownTag)
                },
                _ => Err(FormatError::Malformed),
            }
        },
        _ => Err(FormatError::Malformed),
    }
}

/// The branch that a value stands for: a mapping with one key, the label,
/// whose value is the array of the branch's commands.
pub open spec fn parse_branch(node: NodeView) -> Result<(Seq<char>, Seq<AstView>), FormatError>
    decreases node, 0nat,
{
    match node {
        NodeView::Hash(pairs) => if pairs.len() != 1 {
            Err(FormatError::WrongKeyArity)
        } else {
            match pairs[0] {
                (NodeView::String(label), NodeView::Array(code)) => match parse_block(code) {
                    Ok(commands) => Ok((label, commands)),
                    Err(error) => Err(error),
                },
                _ => Err(FormatError::Malformed),
            }
        },
        _ => Err(FormatError::Malformed),
    }
}

/// The branches that the values stand for, or the error of the first value
/// that stands for none.
pub open spec fn parse_branches(options: Seq<NodeView>) -> Result<
    Seq<(Seq<char>, Seq<AstView>)>,
    FormatError,
>
    decreases options, options.len(),
{
    if options.len() == 0 {
        Ok(Seq::empty())
    } else {
        match parse_branches(options.drop_last()) {
            Err(error) => Err(error),
            Ok(branches) => match parse_branch(options.last()) {
                Err(error) => Err(error),
                Ok(branch) => Ok(branches.push(branch)),
            },
        }
    }
}

/// The commands that the values stand for, or the error of the first value
/// that stands for none.
pub open spec fn parse_block(items: Seq<NodeView>) -> Result<Seq<AstView>, FormatError>
    decreases items, items.len(),
{
    if items.len() == 0 {
        Ok(Seq::empty())
    } else {
        match parse_block(items.drop_last()) {
            Err(error) => Err(error),
            Ok(commands) => match parse_command(items.last()) {
                Err(error) => Err(error),
                Ok(command) => Ok(commands.push(command)),
            },
        }
    }
}

/// The procedures that the pairs of a mapping stand for: each key is the
/// name of a procedure and each value the array of its commands. A name
/// that comes twice keeps its later commands, at the later place.
pub open spec fn parse_procs(pairs: Seq<(NodeView, NodeView)>) -> Result<
    Seq<(Seq<char>, Seq<AstView>)>,
    FormatError,
>
    decreases pairs.len(),
{
    if pairs.len() == 0 {
        Ok(Seq::empty())
    } else {
        match parse_procs(pairs.drop_last()) {
            Err(error) => Err(error),
            Ok(procs) => match pairs.last() {
                (NodeView::String(name), NodeView::Array(code)) => match parse_block(code) {
                    Ok(commands) => Ok(inserted(procs, name, commands)),
                    Err(error) => Err(error),
                },
                _ => Err(FormatError::Malformed),
            },
        }
    }
}

/// The script that a document stands for: a mapping from the names of the
/// procedures to their commands.
pub open spec fn parse_script(node: NodeView) -> Result<
    Seq<(Seq<char>, Seq<AstView>)>,
    FormatError,
> {
    match node {
        NodeView::Hash(pairs) => parse_procs(pairs),
        _ => Err(FormatError::WrongRootShape),
    }
}

proof fn lemma_parse_block_prefix(items: Seq<NodeView>, n: int)
    requires
        0 <= n <= items.len(),
        parse_block(items.take(n)) is Err,
    ensures
        parse_block(items) == parse_block(items.take(n)),
    decreases items.len(),
{
    if n == items.len() {
        assert(items.take(n) == items);
    } else {
        assert(items.drop_last().take(n) == items.take(n));
        lemma_parse_block_prefix(items.drop_last(), n);
    }
}

proof fn lemma_parse_branches_prefix(options: Seq<NodeView>, n: int)
    requires
        0 <= n <= options.len(),
        parse_branches(options.take(n)) is Err,
    ensures
        parse_branches(options) == parse_branches(options.take(n)),
    decreases options.len(),
{
    if n == options.len() {
        assert(options.take(n) == options);
    } else {
        assert(options.drop_last().take(n) == options.take(n));
        lemma_parse_branches_prefix(options.drop_last(), n);
    }
}

proof fn lemma_parse_procs_prefix(pairs: Seq<(NodeView, NodeView)>, n: int)
    requires
        0 <= n <= pairs.len(),
        parse_procs(pairs.take(n)) is Err,
    ensures
        parse_procs(pairs) == parse_procs(pairs.take(n)),
    decreases pairs.len(),
{
    if n == pairs.len() {
        assert(pairs.take(n) == pairs);
    } else {
        assert(pairs.drop_last().take(n) == pairs.take(n));
        lemma_parse_procs_prefix(pairs.drop_last(), n);
    }
}

/// Reads the commands of a block.
fn parse_yaml_block(code: Vec<Node>) -> (parsed: Result<Vec<Ast>, FormatError>)
    ensures
        match parsed {
            Ok(commands) => parse_block(nodes_view(code@)) == Ok::<Seq<AstView>, FormatError>(
                block_view(commands@),
            ),
            Err(error) => parse_block(nodes_view(code@)) == Err::<Seq<AstView>, FormatError>(
                error,
            ),
        },
    decreases code,
{
    let ghost items = nodes_view(code@);
    let mut commands: Vec<Ast> = Vec::new();
    assert(block_view(commands@) =~= Seq::empty());
    for item in it: code.into_iter()
        invariant
            it.seq() == code@,
            items == nodes_view(code@),
            parse_block(items.take(it.index())) == Ok::<Seq<AstView>, FormatError>(
                block_view(commands@),
            ),
    {
        let ghost index = it.index();
        let ghost before = commands@;
        proof {
            assert(items.take(index + 1).drop_last() == items.take(index));
        }
        match parse_yaml_command(item) {
            Ok(command) => {
                commands.push(command);
                assert(block_view(commands@) =~= block_view(before).push(command@));
            },
            Err(error) => {
                proof {
                    lemma_parse_block_prefix(items, index + 1);
                }
                return Err(error);
            },
        }
    }
    assert(items.take(items.len() as int) == items);
    Ok(commands)
}

/// Reads one branch of a choice.
fn parse_yaml_branch(option: Node) -> (parsed: Result<(String, Vec<Ast>), FormatError>)
    ensures
        match parsed {
            Ok(branch) => parse_branch(option@) == Ok::<(Seq<char>, Seq<AstView>), FormatError>(
                (branch.0@, block_view(branch.1@)),
            ),
            Err(error) => parse_branch(option@) == Err::<(Seq<char>, Seq<AstView>), FormatError>(
                error,
            ),
        },
    decreases option,
{
    match option {
        Node::Hash(pairs) => {
            let mut pairs = pairs;
            assert(pairs_view(pairs@).len() == pairs@.len());
            if pairs.len() != 1 {
                return Err(FormatError::WrongKeyArity);
            }
            match pairs.pop() {
                Some((Node::String(label), Node::Array(code))) => {
                    match parse_yaml_block(code) {
                        Ok(commands) => Ok((label, commands)),
                        Err(error) => Err(error),
                    }
                },
                _ => Err(FormatError::Malformed),
            }
        },
        _ => Err(FormatError::Malformed),
    }
}

/// Reads one command of a script.
fn parse_yaml_command(src: Node) -> (parsed: Result<Ast, FormatError>)
    ensures
        match parsed {
            Ok(command) => parse_command(src@) == Ok::<AstView, FormatError>(command@),
            Err(error) => parse_command(src@) == Err::<AstView, FormatError>(error),
        },
    decreases src,
{
    match src {
        Node::String(tag) => {
            if is_tag(tag.as_str(), "wait") {
                Ok(Ast::Wait)
            } else {
                Err(FormatError::UnknownTag)
            }
        },
        Node::Hash(pairs) => {
            let mut pairs = pairs;
            assert(pairs_view(pairs@).len() == pairs@.len());
            if pairs.len() != 1 {
                return Err(FormatError::WrongKeyArity);
            }
            let ghost whole = pairs;
            let ghost all = pairs@;
            match pairs.pop() {
                Some((Node::String(tag), value)) => {
                    if is_tag(tag.as_str(), "print") {
                        match value {
                            Node::String(text) => Ok(Ast::Msg(text)),
                            _ => Err(FormatError::Malformed),
                        }
                    } else if is_tag(tag.as_str(), "call") {
                        match value {
                            Node::String(name) => Ok(Ast::Call(name)),
                            _ => Err(FormatError::Malformed),
                        }
                    } else if is_tag(tag.as_str(), "choose") {
                        match value {
                            Node::Array(options) => {
                                let ghost items = nodes_view(options@);
                                let mut branches: Vec<(String, Vec<Ast>)> = Vec::new();
                                assert(branches_view(branches@) =~= Seq::empty());
                                for option in it: options.into_iter()
                                    invariant
                                        it.seq() == options@,
                                        items == nodes_view(options@),
                                        src == Node::Hash(whole),
                                        all == whole@,
                                        all.len() == 1,
                                        src@ == NodeView::Hash(pairs_view(all)),
                                        pairs_view(all).len() == 1,
                                        pairs_view(all)[0] == (
                                            NodeView::String(tag@),
                                            NodeView::Array(items),
                                        ),
                                        trimmed(tag@) != "print"@,
                                        trimmed(tag@) != "call"@,
                                        trimmed(tag@) == "choose"@,
                                        all[0].1 == Node::Array(options),
                                        parse_branches(items.take(it.index())) == Ok::<
                                            Seq<(Seq<char>, Seq<AstView>)>,
                                            FormatError,
                                        >(branches_view(branches@)),
                                {
                                    let ghost index = it.index();
                                    let ghost before = branches@;
                                    proof {
                                        assert(items.take(index + 1).drop_last() == items.take(
                                            index,
                                        ));
                                    }
                                    match parse_yaml_branch(option) {
                                        Ok(branch) => {
                                            branches.push(branch);
                                            assert(branches_view(branches@) =~= branches_view(
                                                before,
                                            ).push((branch.0@, block_view(branch.1@))));
                                        },
                                        Err(error) => {
                                            proof {
                                                lemma_parse_branches_prefix(items, index + 1);
                                            }
                                            return Err(error);
                                        },
                                    }
                                }
                                assert(items.take(items.len() as int) == items);
                                Ok(Ast::Choice(branches))
                            },
                            _ => Err(FormatError::Malformed),
                        }
                    } else {
                        Err(FormatError::UnknownTag)
                    }
                },
                _ => Err(FormatError::Malformed),
            }
        },
        _ => Err(FormatError::Malformed),
    }
}

/// Reads a script from a document.
///
/// Fails with `WrongRootShape` unless the document is a mapping; with
/// `Malformed` where a name is no text, the code of a procedure or of a
/// branch no array, or a payload of another kind than its tag asks for;
/// with `WrongKeyArity` where a command or a branch is a mapping of none or
/// several keys; with `UnknownTag` where a tag is none of `print`, `wait`,
/// `call` and `choose`. Of several faults the first in the order of the
/// document is reported.
pub fn parse_yaml(yaml_ast: Node) -> (parsed: Result<File, FormatError>)
    ensures
        match parsed {
            Ok(file) => parse_script(yaml_ast@) == Ok::<
                Seq<(Seq<char>, Seq<AstView>)>,
                FormatError,
            >(file@),
            Err(error) => parse_script(yaml_ast@) == Err::<
                Seq<(Seq<char>, Seq<AstView>)>,
                FormatError,
            >(error),
        },
        parsed matches Ok(file) ==> distinct_keys(file@),
{
    match yaml_ast {
        Node::Hash(pairs) => {
            let ghost items = pairs_view(pairs@);
            let mut procs = procs_new();
            for pair in it: pairs.into_iter()
                invariant
                    it.seq() == pairs@,
                    items == pairs_view(pairs@),
                    yaml_ast@ == NodeView::Hash(items),
                    parse_procs(items.take(it.index())) == Ok::<
                        Seq<(Seq<char>, Seq<AstView>)>,
                        FormatError,
                    >(proc_entries(procs)),
                    distinct_keys(proc_entries(procs)),
            {
                let ghost index = it.index();
                proof {
                    assert(items.take(index + 1).drop_last() == items.take(index));
                }
                match pair {
                    (Node::String(name), Node::Array(code)) => {
                        match parse_yaml_block(code) {
                            Ok(commands) => {
                                proof {
                                    lemma_inserted(
                                        proc_entries(procs),
                                        name@,
                                        block_view(commands@),
                                    );
                                }
                                procs_insert(&mut procs, name, commands);
                            },
                            Err(error) => {
                                proof {
                                    lemma_parse_procs_prefix(items, index + 1);
                                }
                                return Err(error);
                            },
                        }
                    },
                    _ => {
                        proof {
                            lemma_parse_procs_prefix(items, index + 1);
                        }
                        return Err(FormatError::Malformed);
                    },
                }
            }
            assert(items.take(items.len() as int) == items);
            Ok(File { procs })
        },
        _ => Err(FormatError::WrongRootShape),
    }
}

} // verus!
