//! Inline-level syntax tree: the nodes that make up the content of a block.

use vstd::prelude::*;

verus! {

/// An inline element within a block.
///
/// `T` is the type of values an extension produces for bracketed content.
#[derive(Debug, PartialEq)]
pub enum Node<T> {
    /// Plain text.
    Text(String),
    /// A link to a page or to an external address.
    Link(Link<T>),
    /// An image reference.
    Image(String),
    /// An icon reference, repeated `count` times.
    Icon { name: String, count: usize },
    /// An inline code snippet.
    InlineCode(String),
    /// A mathematical expression.
    Math(String),
    /// Decorated content: the marker characters and the nodes they wrap.
    Decoration { decos: String, nodes: Vec<Node<T>> },
    /// A value produced by the extension.
    Custom(T),
}

/// The target of a link, with an optional label.
#[derive(Debug, PartialEq, Clone)]
pub enum Link<T> {
    /// A link to another page.
    Page(String),
    /// A bare external address.
    Url(String),
    /// An address with a label, which is itself inline content.
    WithLabel { href: String, label: Vec<Node<T>> },
}

/// The mathematical value of a [`Node`]: strings are character sequences and
/// vectors are sequences.
pub ghost enum NodeModel<T> {
    Text(Seq<char>),
    Link(LinkModel<T>),
    Image(Seq<char>),
    Icon { name: Seq<char>, count: nat },
    InlineCode(Seq<char>),
    Math(Seq<char>),
    Decoration { decos: Seq<char>, nodes: Seq<NodeModel<T>> },
    Custom(T),
}

/// The mathematical value of a [`Link`].
pub ghost enum LinkModel<T> {
    Page(Seq<char>),
    Url(Seq<char>),
    WithLabel { href: Seq<char>, label: Seq<NodeModel<T>> },
}

/// The model of a node.
pub open spec fn node_model<T>(node: Node<T>) -> NodeModel<T>
    decreases node,
{
    match node {
        Node::Text(s) => NodeModel::Text(s@),
        Node::Link(Link::Page(s)) => NodeModel::Link(LinkModel::Page(s@)),
        Node::Link(Link::Url(s)) => NodeModel::Link(LinkModel::Url(s@)),
        Node::Link(Link::WithLabel { href, label }) => NodeModel::Link(
            LinkModel::WithLabel {
                href: href@,
                label: Seq::new(
                    label@.len(),
                    |i: int| if 0 <= i < label@.len() { node_model(label@[i]) } else { arbitrary() },
                ),
            },
        ),
        Node::Image(s) => NodeModel::Image(s@),
        Node::Icon { name, count } => NodeModel::Icon { name: name@, count: count as nat },
        Node::InlineCode(s) => NodeModel::InlineCode(s@),
        Node::Math(s) => NodeModel::Math(s@),
        Node::Decoration { decos, nodes } => NodeModel::Decoration {
            decos: decos@,
            nodes: Seq::new(
                nodes@.len(),
                |i: int| if 0 <= i < nodes@.len() { node_model(nodes@[i]) } else { arbitrary() },
            ),
        },
        Node::Custom(v) => NodeModel::Custom(v),
    }
}

impl<T> View for Node<T> {
    type V = NodeModel<T>;

    open spec fn view(&self) -> NodeModel<T> {
        node_model(*self)
    }
}

/// The models of a vector of nodes, in order.
pub open spec fn nodes_view<T>(nodes: Seq<Node<T>>) -> Seq<NodeModel<T>> {
    Seq::new(nodes.len(), |i: int| nodes[i]@)
}

/// The model of a decoration holds the models of the nodes it wraps.
pub proof fn lemma_decoration_view<T>(decos: String, nodes: Vec<Node<T>>)
    ensures
        (Node::Decoration { decos, nodes })@ == (NodeModel::Decoration {
            decos: decos@,
            nodes: nodes_view(nodes@),
        }),
{
    let model = (Node::Decoration { decos, nodes })@;
    assert(model->Decoration_nodes =~= nodes_view(nodes@));
}

/// The model of a labelled link holds the models of the nodes of its label.
pub proof fn lemma_label_view<T>(href: String, label: Vec<Node<T>>)
    ensures
        Node::Link(Link::WithLabel { href, label })@ == NodeModel::Link(
            LinkModel::WithLabel { href: href@, label: nodes_view(label@) },
        ),
{
    let model = Node::Link(Link::WithLabel { href, label })@;
    assert(model->Link_0->label =~= nodes_view(label@));
}

/// Pushing a node onto a vector pushes its model onto the vector's models.
pub proof fn lemma_nodes_view_push<T>(nodes: Seq<Node<T>>, node: Node<T>)
    ensures
        nodes_view(nodes.push(node)) == nodes_view(nodes).push(node@),
{
    assert(nodes_view(nodes.push(node)) =~= nodes_view(nodes).push(node@));
}

/// Whether a clone of a `T` is always equal to the value it was made from.
pub open spec fn clone_is_copy<T: Clone>() -> bool {
    forall|a: T, b: T| call_ensures(T::clone, (&a,), b) ==> a == b
}

/// A copy of each node of `nodes`, in order.
fn clone_nodes<T: Clone>(nodes: &Vec<Node<T>>) -> (copy: Vec<Node<T>>)
    ensures
        clone_is_copy::<T>() ==> nodes_view(copy@) == nodes_view(nodes@),
    decreases nodes,
{
    let mut copy: Vec<Node<T>> = Vec::new();
    let mut i: usize = 0;
    while i < nodes.len()
        invariant
            i <= nodes@.len(),
            copy@.len() == i,
            clone_is_copy::<T>() ==> forall|j: int| 0 <= j < i ==> (#[trigger] copy@[j])@ == nodes@[j]@,
        decreases nodes@.len() - i,
    {
        copy.push(nodes[i].clone());
        i += 1;
    }
    assert(clone_is_copy::<T>() ==> nodes_view(copy@) =~= nodes_view(nodes@));
    copy
}

impl<T: Clone> Clone for Node<T> {
    /// A copy of the node. Its model is that of the node wherever a clone
    /// of a `T` is equal to the value it was made from.
    fn clone(&self) -> (copy: Self)
        ensures
            clone_is_copy::<T>() ==> copy@ == self@,
        decreases self,
    {
        match self {
            Node::Text(s) => Node::Text(s.clone()),
            Node::Link(Link::Page(s)) => Node::Link(Link::Page(s.clone())),
            Node::Link(Link::Url(s)) => Node::Link(Link::Url(s.clone())),
            Node::Link(Link::WithLabel { href, label }) => {
                let href_copy = href.clone();
                let label_copy = clone_nodes(label);
                proof {
                    lemma_label_view(*href, *label);
                    lemma_label_view(href_copy, label_copy);
                }
                Node::Link(Link::WithLabel { href: href_copy, label: label_copy })
            },
            Node::Image(s) => Node::Image(s.clone()),
            Node::Icon { name, count } => Node::Icon { name: name.clone(), count: *count },
            Node::InlineCode(s) => Node::InlineCode(s.clone()),
            Node::Math(s) => Node::Math(s.clone()),
            Node::Decoration { decos, nodes } => {
                let decos_copy = decos.clone();
                let nodes_copy = clone_nodes(nodes);
                proof {
                    lemma_decoration_view(*decos, *nodes);
                    lemma_decoration_view(decos_copy, nodes_copy);
                }
                Node::Decoration { decos: decos_copy, nodes: nodes_copy }
            },
            Node::Custom(v) => Node::Custom(v.clone()),
        }
    }
}

} // verus!
