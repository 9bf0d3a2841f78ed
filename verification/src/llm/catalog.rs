//! Catalog of representable neural-network architecture families: their
//! display labels and catalog sections.

use vstd::prelude::*;

verus! {

/// A representable neural-network architecture family.
#[derive(Debug, Clone, Copy, PartialEq, Eq, Structural)]
pub enum NetArch {
    Mlp,
    Cnn2d,
    Vgg,
    Resnet,
    Unet,
    Cnn3d,
    Autoencoder,
    Vae,
    Rnn,
    Lstm,
    Gru,
    Gan,
    PointNet,
    PointNetPp,
    Gcn,
    Gat,
    GraphSage,
    Transformer,
    Vit,
}

pub open spec fn arch_label(a: NetArch) -> Seq<char> {
    match a {
        NetArch::Mlp => "MLP / Perceptron"@,
        NetArch::Cnn2d => "2D CNN (LeNet)"@,
        NetArch::Vgg => "2D CNN (VGG)"@,
        NetArch::Resnet => "ResNet"@,
        NetArch::Unet => "U-Net"@,
        NetArch::Cnn3d => "3D CNN (VoxNet)"@,
        NetArch::Autoencoder => "Autoencoder"@,
        NetArch::Vae => "Variational AE"@,
        NetArch::Rnn => "RNN"@,
        NetArch::Lstm => "LSTM"@,
        NetArch::Gru => "GRU"@,
        NetArch::Gan => "GAN"@,
        NetArch::PointNet => "PointNet"@,
        NetArch::PointNetPp => "PointNet++"@,
        NetArch::Gcn => "GCN (Graph)"@,
        NetArch::Gat => "GAT (Graph)"@,
        NetArch::GraphSage => "GraphSAGE"@,
        NetArch::Transformer => "Transformer"@,
        NetArch::Vit => "Vision Transformer"@,
    }
}

pub open spec fn arch_group(a: NetArch) -> Seq<char> {
    match a {
        NetArch::Mlp => "Dense"@,
        NetArch::Cnn2d | NetArch::Vgg | NetArch::Resnet | NetArch::Unet | NetArch::Cnn3d => "Convolutional"@,
        NetArch::Autoencoder | NetArch::Vae | NetArch::Gan => "Generative"@,
        NetArch::Rnn | NetArch::Lstm | NetArch::Gru => "Recurrent"@,
        NetArch::PointNet | NetArch::PointNetPp => "Point cloud"@,
        NetArch::Gcn | NetArch::Gat | NetArch::GraphSage => "Graph"@,
        NetArch::Transformer | NetArch::Vit => "Attention"@,
    }
}

impl NetArch {
    /// Every architecture, in display order.
    pub const ALL: [NetArch; 19] = [
        NetArch::Mlp,
        NetArch::Cnn2d,
        NetArch::Vgg,
        NetArch::Resnet,
        NetArch::Unet,
        NetArch::Cnn3d,
        NetArch::Autoencoder,
        NetArch::Vae,
        NetArch::Rnn,
        NetArch::Lstm,
        NetArch::Gru,
        NetArch::Gan,
        NetArch::PointNet,
        NetArch::PointNetPp,
        NetArch::Gcn,
        NetArch::Gat,
        NetArch::GraphSage,
        NetArch::Transformer,
        NetArch::Vit,
    ];

    /// Short, human-facing name.
    pub fn label(self) -> (r: &'static str)
        ensures
            r@ == arch_label(self),
    {
        match self {
            NetArch::Mlp => "MLP / Perceptron",
            NetArch::Cnn2d => "2D CNN (LeNet)",
            NetArch::Vgg => "2D CNN (VGG)",
            NetArch::Resnet => "ResNet",
            NetArch::Unet => "U-Net",
            NetArch::Cnn3d => "3D CNN (VoxNet)",
            NetArch::Autoencoder => "Autoencoder",
            NetArch::Vae => "Variational AE",
            NetArch::Rnn => "RNN",
            NetArch::Lstm => "LSTM",
            NetArch::Gru => "GRU",
            NetArch::Gan => "GAN",
            NetArch::PointNet => "PointNet",
            NetArch::PointNetPp => "PointNet++",
            NetArch::Gcn => "GCN (Graph)",
            NetArch::Gat => "GAT (Graph)",
            NetArch::GraphSage => "GraphSAGE",
            NetArch::Transformer => "Transformer",
            NetArch::Vit => "Vision Transformer",
        }
    }

    /// Coarse grouping used to lay the catalog out in sections.
    pub fn group(self) -> (r: &'static str)
        ensures
            r@ == arch_group(self),
    {
        match self {
            NetArch::Mlp => "Dense",
            NetArch::Cnn2d | NetArch::Vgg | NetArch::Resnet | NetArch::Unet | NetArch::Cnn3d => "Convolutional",
            NetArch::Autoencoder | NetArch::Vae | NetArch::Gan => "Generative",
            NetArch::Rnn | NetArch::Lstm | NetArch::Gru => "Recurrent",
            NetArch::PointNet | NetArch::PointNetPp => "Point cloud",
            NetArch::Gcn | NetArch::Gat | NetArch::GraphSage => "Graph",
            NetArch::Transformer | NetArch::Vit => "Attention",
        }
    }
}

/// Every label and group is non-empty, and distinct architectures have
/// distinct labels.
pub proof fn lemma_labels_distinct(a: NetArch, b: NetArch)
    ensures
        arch_label(a).len() > 0,
        arch_group(a).len() > 0,
        a != b ==> arch_label(a) != arch_label(b),
{
    reveal_strlit("MLP / Perceptron");
    reveal_strlit("2D CNN (LeNet)");
    reveal_strlit("2D CNN (VGG)");
    reveal_strlit("ResNet");
    reveal_strlit("U-Net");
    reveal_strlit("3D CNN (VoxNet)");
    reveal_strlit("Autoencoder");
    reveal_strlit("Variational AE");
    reveal_strlit("RNN");
    reveal_strlit("LSTM");
    reveal_strlit("GRU");
    reveal_strlit("GAN");
    reveal_strlit("PointNet");
    reveal_strlit("PointNet++");
    reveal_strlit("GCN (Graph)");
    reveal_strlit("GAT (Graph)");
    reveal_strlit("GraphSAGE");
    reveal_strlit("Transformer");
    reveal_strlit("Vision Transformer");
    reveal_strlit("Dense");
    reveal_strlit("Convolutional");
    reveal_strlit("Generative");
    reveal_strlit("Recurrent");
    reveal_strlit("Point cloud");
    reveal_strlit("Graph");
    reveal_strlit("Attention");
    if a != b && arch_label(a) == arch_label(b) {
        let la = arch_label(a);
        let lb = arch_label(b);
        assert(la.len() == lb.len() && la[0] == lb[0] && la[1] == lb[1]);
        assert(false);
    }
}

/// The kind of a layer in a network graph.
#[derive(Debug, Clone, Copy, PartialEq, Eq, Structural)]
pub enum LayerKind {
    Embedding,
    Attention,
    FeedForward,
    LayerNorm,
    Output,
}

/// Layer kind as named in a JSON model description.
#[derive(Debug, Clone, Copy, PartialEq, Eq, Structural)]
pub enum JsonLayerKind {
    Embedding,
    Attention,
    FeedForward,
    LayerNorm,
    Output,
}

impl JsonLayerKind {
    /// The graph layer kind a JSON layer kind stands for.
    pub fn layer_kind(self) -> (r: LayerKind)
        ensures
            r == match self {
                JsonLayerKind::Embedding => LayerKind::Embedding,
                JsonLayerKind::Attention => LayerKind::Attention,
                JsonLayerKind::FeedForward => LayerKind::FeedForward,
                JsonLayerKind::LayerNorm => LayerKind::LayerNorm,
                JsonLayerKind::Output => LayerKind::Output,
            },
    {
        match self {
            JsonLayerKind::Embedding => LayerKind::Embedding,
            JsonLayerKind::Attention => LayerKind::Attention,
            JsonLayerKind::FeedForward => LayerKind::FeedForward,
            JsonLayerKind::LayerNorm => LayerKind::LayerNorm,
            JsonLayerKind::Output => LayerKind::Output,
        }
    }
}

} // verus!
