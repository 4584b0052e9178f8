pub mod psf2;
