use vstd::prelude::*;

verus! {

/// A node of the DOM-like output.
#[derive(Debug, PartialEq, Eq)]
pub enum VNode {
    Element(VElement),
    Text(String),
}

/// An element with a tag, attributes and children.
#[derive(Debug, PartialEq, Eq)]
pub struct VElement {
    pub tag: String,
    pub attrs: Vec<(String, String)>,
    pub children: Vec<VNode>,
}

/// Model of a DOM node.
pub enum VNodeV {
    Element(VElementV),
    Text(Seq<char>),
}

/// Model of an element.
pub struct VElementV {
    pub tag: Seq<char>,
    pub attrs: Seq<(Seq<char>, Seq<char>)>,
    pub children: Seq<VNodeV>,
}

/// Model of a list of attributes.
pub open spec fn attrs_view(a: Seq<(String, String)>) -> Seq<(Seq<char>, Seq<char>)> {
    a.map_values(|p: (String, String)| (p.0@, p.1@))
}

/// Model of a DOM node.
pub open spec fn vnode_view(n: VNode) -> VNodeV
    decreases n,
{
    match n {
        VNode::Element(e) => VNodeV::Element(
            VElementV {
                tag: e.tag@,
                attrs: attrs_view(e.attrs@),
                children: vnodes_view(e.children@),
            },
        ),
        VNode::Text(s) => VNodeV::Text(s@),
    }
}

/// Model of a list of DOM nodes.
pub open spec fn vnodes_view(ns: Seq<VNode>) -> Seq<VNodeV>
    decreases ns,
{
    if ns.len() == 0 {
        Seq::empty()
    } else {
        vnodes_view(ns.drop_last()).push(vnode_view(ns.last()))
    }
}

/// The model of a concatenation is the concatenation of the models.
pub proof fn lemma_vnodes_view_concat(a: Seq<VNode>, b: Seq<VNode>)
    ensures
        vnodes_view(a + b) == vnodes_view(a) + vnodes_view(b),
    decreases b.len(),
{
    if b.len() == 0 {
        assert(a + b =~= a);
        assert(vnodes_view(a) + vnodes_view(b) =~= vnodes_view(a));
    } else {
        lemma_vnodes_view_concat(a, b.drop_last());
        assert((a + b).drop_last() =~= a + b.drop_last());
        assert((a + b).last() == b.last());
        assert(vnodes_view(a) + vnodes_view(b) =~= (vnodes_view(a) + vnodes_view(b.drop_last())).push(
            vnode_view(b.last()),
        ));
    }
}

impl View for VNode {
    type V = VNodeV;

    open spec fn view(&self) -> VNodeV {
        vnode_view(*self)
    }
}

impl View for VElement {
    type V = VElementV;

    open spec fn view(&self) -> VElementV {
        VElementV {
            tag: self.tag@,
            attrs: attrs_view(self.attrs@),
            children: vnodes_view(self.children@),
        }
    }
}

fn clone_attrs(a: &Vec<(String, String)>) -> (r: Vec<(String, String)>)
    ensures
        attrs_view(r@) == attrs_view(a@),
{
    let mut r: Vec<(String, String)> = Vec::new();
    let n = a.len();
    let mut i: usize = 0;
    while i < n
        invariant
            i <= n == a@.len(),
            r@.len() == i,
            attrs_view(r@) == attrs_view(a@.take(i as int)),
        decreases n - i,
    {
        let p = (a[i].0.clone(), a[i].1.clone());
        let ghost prev = r@;
        r.push(p);
        assert(r@ == prev.push(p));
        assert forall|j: int| 0 <= j <= i implies #[trigger] attrs_view(r@)[j] == attrs_view(
            a@.take(i + 1),
        )[j] by {
            if j < i {
                assert(r@[j] == prev[j]);
                assert(attrs_view(prev)[j] == attrs_view(a@.take(i as int))[j]);
            }
        }
        assert(attrs_view(r@) =~= attrs_view(a@.take(i + 1)));
        i = i + 1;
    }
    assert(a@.take(n as int) =~= a@);
    r
}

fn clone_vnode(n: &VNode) -> (r: VNode)
    ensures
        vnode_view(r) == vnode_view(*n),
    decreases n,
{
    match n {
        VNode::Element(e) => VNode::Element(
            VElement {
                tag: e.tag.clone(),
                attrs: clone_attrs(&e.attrs),
                children: clone_vnodes(&e.children),
            },
        ),
        VNode::Text(s) => VNode::Text(s.clone()),
    }
}

fn clone_vnodes(ns: &Vec<VNode>) -> (r: Vec<VNode>)
    ensures
        vnodes_view(r@) == vnodes_view(ns@),
    decreases ns,
{
    let mut r: Vec<VNode> = Vec::new();
    let n = ns.len();
    let mut i: usize = 0;
    assert(ns@.take(0) =~= Seq::<VNode>::empty());
    assert(r@ =~= Seq::<VNode>::empty());
    while i < n
        invariant
            i <= n == ns@.len(),
            vnodes_view(r@) == vnodes_view(ns@.take(i as int)),
        decreases n - i,
    {
        proof {
            vstd::std_specs::vec::axiom_vec_index_decreases(*ns, i as int);
        }
        let c = clone_vnode(&ns[i]);
        proof {
            assert(r@.push(c).drop_last() =~= r@);
            assert(ns@.take(i + 1) =~= ns@.take(i as int).push(ns@[i as int]));
            assert(ns@.take(i + 1).drop_last() =~= ns@.take(i as int));
        }
        r.push(c);
        i = i + 1;
    }
    assert(ns@.take(n as int) =~= ns@);
    r
}

impl Clone for VNode {
    fn clone(&self) -> (r: Self)
        ensures
            r@ == self@,
    {
        clone_vnode(self)
    }
}

impl Clone for VElement {
    fn clone(&self) -> (r: Self)
        ensures
            r@ == self@,
    {
        VElement {
            tag: self.tag.clone(),
            attrs: clone_attrs(&self.attrs),
            children: clone_vnodes(&self.children),
        }
    }
}

} // verus!
