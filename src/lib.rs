//! Radix integers made of encrypted blocks: headroom accounting per block, carry
//! propagation, the "smart" addition that renormalizes only when needed, a parallel
//! tournament reduction over any associative operator, and the bridge that moves
//! ciphertexts to and from accelerator memory.
pub mod block;
pub mod gpu;
pub mod radix;
pub mod reduce;
pub mod server_key;

pub use block::{Ciphertext, PBSOrder};
pub use gpu::{
    CudaBlockInfo, CudaLweCiphertextList, CudaRadixCiphertext, CudaRadixCiphertextInfo,
    CudaStream, CudaVec,
};
pub use radix::RadixCiphertext;
pub use reduce::{RadixBinaryOp, SmartAdd};
pub use server_key::ServerKey;
