pub mod ngram_eval;
